//! From changed files to the projects that they belong to.
use vstd::prelude::*;

use crate::globs;
use crate::graph::GraphModel;
use crate::graph::ProjectGraph;
use crate::ordered;
use crate::ordered::OrderedSet;
use crate::path;
use crate::project::Project;
use crate::project::ProjectId;
use crate::project::ProjectModel;
use crate::text;

verus! {

/// Why the source globs of a project are unusable.
#[derive(Debug)]
pub enum SourceGlobError {
    /// A pattern is no valid glob.
    InvalidPattern { project: ProjectId, pattern: String, cause: globset::Error },
    /// The patterns cannot be compiled into one set.
    InvalidSet { project: ProjectId, cause: globset::Error },
}

/// What is wrong with the source globs of a project. Of a pattern it is known
/// why.
pub enum GlobProblem {
    Pattern { project: Seq<char>, pattern: Seq<char>, cause: Seq<char> },
    Whole { project: Seq<char> },
}

impl SourceGlobError {
    pub open spec fn problem(&self) -> GlobProblem {
        match self {
            SourceGlobError::InvalidPattern { project, pattern, cause } => GlobProblem::Pattern {
                project: project@,
                pattern: pattern@,
                cause: globs::error_text(*cause),
            },
            SourceGlobError::InvalidSet { project, cause: _ } => GlobProblem::Whole {
                project: project@,
            },
        }
    }
}

/// The first pattern that is no valid glob.
pub open spec fn first_invalid(patterns: Seq<Seq<char>>) -> Option<Seq<char>>
    decreases patterns.len(),
{
    if patterns.len() == 0 {
        None
    } else {
        match first_invalid(patterns.drop_last()) {
            Some(pattern) => Some(pattern),
            None => if globs::glob_refusal(patterns.last()) is None {
                None
            } else {
                Some(patterns.last())
            },
        }
    }
}

impl ProjectModel {
    /// What is wrong with the source globs of the project, if anything.
    pub open spec fn glob_problem(self) -> Option<GlobProblem> {
        match first_invalid(self.sources) {
            Some(pattern) => Some(
                GlobProblem::Pattern {
                    project: self.id,
                    pattern,
                    cause: globs::glob_refusal(pattern)->0,
                },
            ),
            None => if self.sources.len() > 0 && !globs::set_compiles(self.sources) {
                Some(GlobProblem::Whole { project: self.id })
            } else {
                None
            },
        }
    }

    /// The root of the project, seen from the monorepo root.
    pub open spec fn full_root(self, root: Seq<char>) -> Seq<char> {
        path::joined(root, self.root)
    }

    /// The file lies under the root of the project, and, where the project has
    /// source globs, one of them matches the path of the file from there.
    pub open spec fn claims(self, root: Seq<char>, file: Seq<char>) -> bool {
        match path::relative(path::joined(root, file), self.full_root(root)) {
            Some(rel) => self.sources.len() == 0 || globs::any_matches(self.sources, rel),
            None => false,
        }
    }

    /// The number of components of the full root.
    pub open spec fn depth(self, root: Seq<char>) -> nat {
        path::parts(self.full_root(root)).len()
    }
}

/// The problem of the first project that has one.
pub open spec fn first_problem(projects: Seq<ProjectModel>) -> Option<GlobProblem>
    decreases projects.len(),
{
    if projects.len() == 0 {
        None
    } else {
        match first_problem(projects.drop_last()) {
            Some(problem) => Some(problem),
            None => projects.last().glob_problem(),
        }
    }
}

impl GraphModel {
    /// The project at place `i` is the one that the file belongs to: of those
    /// that claim it the one with the deepest root, and of those the first.
    pub open spec fn owns(self, i: int, file: Seq<char>) -> bool {
        &&& 0 <= i < self.projects.len()
        &&& self.projects[i].claims(self.root, file)
        &&& forall|j: int|
            0 <= j < self.projects.len() && (#[trigger] self.projects[j]).claims(self.root, file)
                ==> {
                &&& self.projects[j].depth(self.root) <= self.projects[i].depth(self.root)
                &&& j < i ==> self.projects[j].depth(self.root) < self.projects[i].depth(self.root)
            }
    }

    /// The ids of the projects that one of the files belongs to.
    pub open spec fn changed(self, files: Set<Seq<char>>) -> Set<Seq<char>> {
        Set::new(
            |id: Seq<char>|
                exists|file: Seq<char>, i: int| #[trigger]
                    files.contains(file) && #[trigger] self.is_at(i, id) && self.owns(i, file),
        )
    }
}

/// What is needed of a project to match files against it.
struct ProjectMeta {
    full_root: String,
    depth: usize,
    globs: Option<globset::GlobSet>,
}

impl ProjectMeta {
    spec fn describes(&self, p: ProjectModel, root: Seq<char>) -> bool {
        &&& self.full_root@ == p.full_root(root)
        &&& self.depth == p.depth(root)
        &&& match self.globs {
            Some(set) => p.sources.len() > 0 && globs::set_patterns(set) == p.sources,
            None => p.sources.len() == 0,
        }
    }
}

/// The compiled source globs of a project, if it has any.
fn compile_sources(project: &Project) -> (r: Result<Option<globset::GlobSet>, SourceGlobError>)
    ensures
        match r {
            Ok(None) => project@.sources.len() == 0 && project@.glob_problem() is None,
            Ok(Some(set)) => project@.sources.len() > 0 && globs::set_patterns(set)
                == project@.sources && project@.glob_problem() is None,
            Err(e) => project@.glob_problem() == Some(e.problem()),
        },
{
    let ghost patterns = project@.sources;
    if project.sources.len() == 0 {
        return Ok(None);
    }
    let mut builder = globs::new_builder();
    let mut i: usize = 0;
    proof {
        assert(patterns.take(0) =~= Seq::<Seq<char>>::empty());
    }
    while i < project.sources.len()
        invariant
            patterns == text::texts(project.sources@),
            i <= patterns.len(),
            globs::builder_patterns(builder) == patterns.take(i as int),
            first_invalid(patterns.take(i as int)) is None,
            patterns == project@.sources,
        decreases patterns.len() - i,
    {
        let pattern = &project.sources[i];
        proof {
            assert(patterns[i as int] == pattern@);
            assert(patterns.take(i + 1) =~= patterns.take(i as int).push(pattern@));
            assert(patterns.take(i + 1).drop_last() =~= patterns.take(i as int));
        }
        match globs::add_pattern(&mut builder, pattern.as_str()) {
            Ok(_) => {},
            Err(cause) => {
                proof {
                    assert(first_invalid(patterns.take(i + 1)) == Some(pattern@));
                    lemma_first_invalid_stays(patterns, i + 1);
                }
                return Err(
                    SourceGlobError::InvalidPattern {
                        project: project.id.clone(),
                        pattern: pattern.clone(),
                        cause,
                    },
                );
            },
        }
        i += 1;
    }
    proof {
        assert(patterns.take(i as int) =~= patterns);
    }
    match globs::build_set(&builder) {
        Ok(set) => Ok(Some(set)),
        Err(cause) => Err(SourceGlobError::InvalidSet { project: project.id.clone(), cause }),
    }
}

/// An invalid pattern stays the first one, whatever comes behind it.
proof fn lemma_first_invalid_stays(patterns: Seq<Seq<char>>, n: int)
    requires
        0 <= n <= patterns.len(),
        first_invalid(patterns.take(n)) is Some,
    ensures
        first_invalid(patterns) == first_invalid(patterns.take(n)),
    decreases patterns.len(),
{
    if n < patterns.len() {
        assert(patterns.drop_last().take(n) =~= patterns.take(n));
        lemma_first_invalid_stays(patterns.drop_last(), n);
    } else {
        assert(patterns.take(n) =~= patterns);
    }
}

/// A problem stays the first one, whatever comes behind it.
proof fn lemma_first_problem_stays(projects: Seq<ProjectModel>, n: int)
    requires
        0 <= n <= projects.len(),
        first_problem(projects.take(n)) is Some,
    ensures
        first_problem(projects) == first_problem(projects.take(n)),
    decreases projects.len(),
{
    if n < projects.len() {
        assert(projects.drop_last().take(n) =~= projects.take(n));
        lemma_first_problem_stays(projects.drop_last(), n);
    } else {
        assert(projects.take(n) =~= projects);
    }
}

/// Whether the project that `meta` describes claims the file with the given
/// full path.
fn meta_claims(
    meta: &ProjectMeta,
    full: &str,
    Ghost(p): Ghost<ProjectModel>,
    Ghost(root): Ghost<Seq<char>>,
    Ghost(file): Ghost<Seq<char>>,
) -> (r: bool)
    requires
        meta.describes(p, root),
        full@ == path::joined(root, file),
    ensures
        r == p.claims(root, file),
{
    match path::strip_prefix(full, meta.full_root.as_str()) {
        Some(rel) => match &meta.globs {
            Some(set) => globs::is_match(set, rel.as_str()),
            None => true,
        },
        None => false,
    }
}

/// Of the projects that claim a file, the one with the deepest root, and of
/// those the first: `claims` says which projects claim it, and `depths` how
/// deep their roots are.
pub fn deepest_claim(claims: &Vec<bool>, depths: &Vec<usize>) -> (r: Option<usize>)
    requires
        claims@.len() == depths@.len(),
    ensures
        match r {
            Some(b) => {
                &&& b < claims@.len()
                &&& claims@[b as int]
                &&& forall|j: int|
                    0 <= j < claims@.len() && #[trigger] claims@[j] ==> {
                        &&& depths@[j] <= depths@[b as int]
                        &&& j < b ==> depths@[j] < depths@[b as int]
                    }
            },
            None => forall|j: int| 0 <= j < claims@.len() ==> !#[trigger] claims@[j],
        },
{
    let mut best: Option<usize> = None;
    let mut i: usize = 0;
    while i < claims.len()
        invariant
            claims@.len() == depths@.len(),
            i <= claims@.len(),
            match best {
                Some(b) => {
                    &&& b < i
                    &&& claims@[b as int]
                    &&& forall|j: int|
                        0 <= j < i && #[trigger] claims@[j] ==> {
                            &&& depths@[j] <= depths@[b as int]
                            &&& j < b ==> depths@[j] < depths@[b as int]
                        }
                },
                None => forall|j: int| 0 <= j < i ==> !#[trigger] claims@[j],
            },
        decreases claims@.len() - i,
    {
        if claims[i] {
            let deeper = match best {
                Some(b) => depths[i] > depths[b],
                None => true,
            };
            if deeper {
                best = Some(i);
            }
        }
        i += 1;
    }
    best
}

impl ProjectGraph {
    /// What is needed of each project to match files against it.
    fn metas(&self) -> (r: Result<Vec<ProjectMeta>, SourceGlobError>)
        ensures
            match r {
                Ok(metas) => {
                    &&& first_problem(self@.projects) is None
                    &&& metas@.len() == self@.projects.len()
                    &&& forall|i: int|
                        0 <= i < metas@.len() ==> (#[trigger] metas@[i]).describes(
                            self@.projects[i],
                            self@.root,
                        )
                },
                Err(e) => first_problem(self@.projects) == Some(e.problem()),
            },
    {
        let ghost g = self@;
        let list = self.projects();
        let ghost f = |p: &Project| p@;
        let mut metas: Vec<ProjectMeta> = Vec::new();
        let mut i: usize = 0;
        proof {
            assert(list@.map_values(f) =~= g.projects);
            assert(g.projects.take(0) =~= Seq::<ProjectModel>::empty());
        }
        while i < list.len()
            invariant
                g == self@,
                f == (|p: &Project| p@),
                list@.map_values(f) == g.projects,
                i <= list@.len(),
                metas@.len() == i,
                first_problem(g.projects.take(i as int)) is None,
                forall|k: int|
                    0 <= k < metas@.len() ==> (#[trigger] metas@[k]).describes(
                        g.projects[k],
                        g.root,
                    ),
            decreases list@.len() - i,
        {
            let project = list[i];
            proof {
                assert(list@.map_values(f)[i as int] == project@);
                assert(g.projects.take(i + 1).drop_last() =~= g.projects.take(i as int));
                assert(g.projects.take(i + 1).last() == project@);
            }
            let root = self.root();
            let full_root = path::join(root.as_str(), project.root.as_str());
            let depth: usize = path::depth(full_root.as_str());
            let globs = match compile_sources(project) {
                Ok(globs) => globs,
                Err(e) => {
                    proof {
                        lemma_first_problem_stays(g.projects, i + 1);
                    }
                    return Err(e);
                },
            };
            metas.push(ProjectMeta { full_root, depth, globs });
            i += 1;
        }
        proof {
            assert(g.projects.take(i as int) =~= g.projects);
        }
        Ok(metas)
    }

    /// The place of the project that the file belongs to.
    fn owner_of(&self, metas: &Vec<ProjectMeta>, file: &str) -> (r: Option<usize>)
        requires
            metas@.len() == self@.projects.len(),
            forall|i: int|
                0 <= i < metas@.len() ==> (#[trigger] metas@[i]).describes(
                    self@.projects[i],
                    self@.root,
                ),
        ensures
            match r {
                Some(i) => self@.owns(i as int, file@),
                None => forall|i: int| !self@.owns(i, file@),
            },
    {
        let ghost g = self@;
        let root = self.root();
        let full = path::join(root.as_str(), file);
        let mut claims: Vec<bool> = Vec::new();
        let mut depths: Vec<usize> = Vec::new();
        let mut i: usize = 0;
        while i < metas.len()
            invariant
                g == self@,
                full@ == path::joined(g.root, file@),
                metas@.len() == g.projects.len(),
                forall|k: int|
                    0 <= k < metas@.len() ==> (#[trigger] metas@[k]).describes(
                        g.projects[k],
                        g.root,
                    ),
                i <= metas@.len(),
                claims@.len() == i,
                depths@.len() == i,
                forall|k: int|
                    0 <= k < i ==> #[trigger] claims@[k] == g.projects[k].claims(g.root, file@),
                forall|k: int| 0 <= k < i ==> #[trigger] depths@[k] == g.projects[k].depth(g.root),
            decreases metas@.len() - i,
        {
            claims.push(
                meta_claims(
                    &metas[i],
                    full.as_str(),
                    Ghost(g.projects[i as int]),
                    Ghost(g.root),
                    Ghost(file@),
                ),
            );
            depths.push(metas[i].depth);
            i += 1;
        }
        let best = deepest_claim(&claims, &depths);
        proof {
            match best {
                Some(b) => {
                    assert(claims@[b as int]);
                    assert forall|j: int|
                        0 <= j < g.projects.len() && (#[trigger] g.projects[j]).claims(
                            g.root,
                            file@,
                        ) implies {
                        &&& g.projects[j].depth(g.root) <= g.projects[b as int].depth(g.root)
                        &&& j < b ==> g.projects[j].depth(g.root) < g.projects[b as int].depth(
                            g.root,
                        )
                    } by {
                        assert(claims@[j]);
                        assert(depths@[j] == g.projects[j].depth(g.root));
                        assert(depths@[b as int] == g.projects[b as int].depth(g.root));
                    }
                },
                None => {
                    assert forall|j: int| !g.owns(j, file@) by {
                        if 0 <= j < g.projects.len() {
                            assert(!claims@[j]);
                        }
                    }
                },
            }
        }
        best
    }

    /// Maps changed file paths to the projects that contain them.
    ///
    /// A file belongs to a project if it lies under the root of the project
    /// and, where the project has source globs, one of them matches its path
    /// from there. Of several such projects the one with the deepest root has
    /// it.
    pub fn projects_for_changed_files(&self, files: &[String]) -> (r: Result<
        OrderedSet<ProjectId>,
        SourceGlobError,
    >)
        ensures
            match r {
                Ok(ids) => first_problem(self@.projects) is None && ids@ == self@.changed(
                    text::texts(files@).to_set(),
                ),
                Err(e) => first_problem(self@.projects) == Some(e.problem()),
            },
    {
        let ghost g = self@;
        let ghost wanted = text::texts(files@);
        let metas = match self.metas() {
            Ok(metas) => metas,
            Err(e) => {
                return Err(e);
            },
        };
        let mut out: OrderedSet<ProjectId> = OrderedSet::new();
        let list = self.projects();
        let ghost f = |p: &Project| p@;
        let mut i: usize = 0;
        proof {
            assert(list@.map_values(f) =~= g.projects);
            assert(wanted.take(0).to_set() =~= Set::<Seq<char>>::empty());
            assert(g.changed(wanted.take(0).to_set()) =~= Set::<Seq<char>>::empty());
        }
        while i < files.len()
            invariant
                g == self@,
                wanted == text::texts(files@),
                f == (|p: &Project| p@),
                list@.map_values(f) == g.projects,
                metas@.len() == g.projects.len(),
                forall|k: int|
                    0 <= k < metas@.len() ==> (#[trigger] metas@[k]).describes(
                        g.projects[k],
                        g.root,
                    ),
                i <= files@.len(),
                out@ == g.changed(wanted.take(i as int).to_set()),
            decreases files@.len() - i,
        {
            let ghost before = out@;
            let owner = self.owner_of(&metas, files[i].as_str());
            proof {
                assert(wanted[i as int] == files@[i as int]@);
                assert(wanted.take(i + 1) =~= wanted.take(i as int).push(wanted[i as int]));
                lemma_changed_push(g, wanted.take(i as int), wanted[i as int]);
            }
            if let Some(p) = owner {
                proof {
                    assert(list@.map_values(f)[p as int] == list@[p as int]@);
                    lemma_one_owner(g, wanted[i as int], p as int);
                }
                out.insert(list[p].id.clone());
            } else {
                proof {
                    assert(g.changed(set![wanted[i as int]]) =~= Set::<Seq<char>>::empty());
                }
            }
            proof {
                assert(out@ =~= g.changed(wanted.take(i + 1).to_set()));
            }
            i += 1;
        }
        proof {
            assert(wanted.take(i as int) =~= wanted);
        }
        Ok(out)
    }

    /// The projects that changed files belong to, and the projects that depend
    /// on them.
    pub fn affected_from_paths(&self, files: &[String]) -> (r: Result<
        OrderedSet<ProjectId>,
        SourceGlobError,
    >)
        requires
            self.wf(),
        ensures
            match r {
                Ok(ids) => first_problem(self@.projects) is None && ids@ == self@.dependents(
                    self@.changed(text::texts(files@).to_set()),
                ),
                Err(e) => first_problem(self@.projects) == Some(e.problem()),
            },
    {
        let seeds = match self.projects_for_changed_files(files) {
            Ok(ids) => ids.into_items(),
            Err(e) => {
                return Err(e);
            },
        };
        proof {
            ordered::lemma_item_texts(seeds@);
        }
        Ok(self.transitive_dependents(seeds.as_slice()))
    }
}

/// One more file adds the project that it belongs to.
proof fn lemma_changed_push(g: GraphModel, files: Seq<Seq<char>>, file: Seq<char>)
    ensures
        g.changed(files.push(file).to_set()) == g.changed(files.to_set()).union(
            g.changed(set![file]),
        ),
{
    let more = files.push(file);
    assert(more.to_set() =~= files.to_set().insert(file)) by {
        assert forall|t: Seq<char>| more.to_set().contains(t) <==> files.to_set().insert(
            file,
        ).contains(t) by {
            if files.to_set().contains(t) {
                let i = choose|i: int| 0 <= i < files.len() && files[i] == t;
                assert(more[i] == t);
            }
            if t == file {
                assert(more[files.len() as int] == t);
            }
            if more.to_set().contains(t) && t != file {
                let i = choose|i: int| 0 <= i < more.len() && more[i] == t;
                assert(files[i] == t);
            }
        }
    }
    law_changed_union(g, files.to_set(), set![file]);
    assert(files.to_set().union(set![file]) =~= more.to_set());
}

/// The changed projects of two sets of files are those of the one and those of
/// the other.
pub proof fn law_changed_union(g: GraphModel, a: Set<Seq<char>>, b: Set<Seq<char>>)
    ensures
        g.changed(a.union(b)) == g.changed(a).union(g.changed(b)),
{
    assert forall|id: Seq<char>|
        #![trigger g.changed(a.union(b)).contains(id)]
        g.changed(a.union(b)).contains(id) <==> g.changed(a).union(g.changed(b)).contains(id) by {
        if g.changed(a.union(b)).contains(id) {
            let (file, i) = choose|file: Seq<char>, i: int| #[trigger]
                a.union(b).contains(file) && #[trigger] g.is_at(i, id) && g.owns(i, file);
            assert(a.contains(file) || b.contains(file));
        }
        if g.changed(a).contains(id) {
            let (file, i) = choose|file: Seq<char>, i: int| #[trigger]
                a.contains(file) && #[trigger] g.is_at(i, id) && g.owns(i, file);
            assert(a.union(b).contains(file));
        }
        if g.changed(b).contains(id) {
            let (file, i) = choose|file: Seq<char>, i: int| #[trigger]
                b.contains(file) && #[trigger] g.is_at(i, id) && g.owns(i, file);
            assert(a.union(b).contains(file));
        }
    }
    assert(g.changed(a.union(b)) =~= g.changed(a).union(g.changed(b)));
}

/// A file belongs to one project at most.
pub proof fn law_single_owner(g: GraphModel, file: Seq<char>, i: int, j: int)
    requires
        g.owns(i, file),
        g.owns(j, file),
    ensures
        i == j,
{
    assert(g.projects[i].claims(g.root, file));
    assert(g.projects[j].claims(g.root, file));
}

/// A single file changes the project that it belongs to.
proof fn lemma_one_owner(g: GraphModel, file: Seq<char>, i: int)
    requires
        g.owns(i, file),
    ensures
        g.changed(set![file]) == set![g.projects[i].id],
{
    let id = g.projects[i].id;
    assert forall|x: Seq<char>| #[trigger]
        g.changed(set![file]).contains(x) <==> set![id].contains(x) by {
        if x == id {
            assert(set![file].contains(file));
            assert(g.is_at(i, id));
        }
        if g.changed(set![file]).contains(x) {
            let (other, j) = choose|other: Seq<char>, j: int| #[trigger]
                set![file].contains(other) && #[trigger] g.is_at(j, x) && g.owns(j, other);
            law_single_owner(g, file, i, j);
        }
    }
    assert(g.changed(set![file]) =~= set![id]);
}

/// The components of the root of the project are the first ones of the file,
/// both seen from the monorepo root.
pub open spec fn lies_in(root: Seq<char>, p: ProjectModel, file: Seq<char>) -> bool {
    path::parts(path::joined(root, p.root)).is_prefix_of(path::parts(path::joined(root, file)))
}

/// Where there are claims, one of them has the deepest root and comes first.
proof fn lemma_some_owner(g: GraphModel, file: Seq<char>, n: int) -> (i: int)
    requires
        0 <= n <= g.projects.len(),
        exists|k: int| 0 <= k < n && (#[trigger] g.projects[k]).claims(g.root, file),
    ensures
        0 <= i < n,
        g.projects[i].claims(g.root, file),
        forall|j: int|
            0 <= j < n && (#[trigger] g.projects[j]).claims(g.root, file) ==> {
                &&& g.projects[j].depth(g.root) <= g.projects[i].depth(g.root)
                &&& j < i ==> g.projects[j].depth(g.root) < g.projects[i].depth(g.root)
            },
    decreases n,
{
    let last = n - 1;
    if exists|k: int| 0 <= k < last && (#[trigger] g.projects[k]).claims(g.root, file) {
        let i = lemma_some_owner(g, file, last);
        if g.projects[last].claims(g.root, file) && g.projects[last].depth(g.root)
            > g.projects[i].depth(g.root) {
            last
        } else {
            i
        }
    } else {
        last
    }
}

/// What a claim comes to.
proof fn lemma_claim(g: GraphModel, file: Seq<char>, i: int)
    requires
        0 <= i < g.projects.len(),
    ensures
        ({
            let p = g.projects[i];
            let full = path::joined(g.root, file);
            let rel = path::relative(full, path::joined(g.root, p.root))->0;
            p.claims(g.root, file) <==> lies_in(g.root, p, file) && (p.sources.len() == 0
                || exists|k: int|
                0 <= k < p.sources.len() && globs::glob_matches(#[trigger] p.sources[k], rel))
        }),
{
    let p = g.projects[i];
    let full = path::joined(g.root, file);
    let rel = path::relative(full, path::joined(g.root, p.root))->0;
    path::law_relative(full, path::joined(g.root, p.root));
    let f = |pattern: Seq<char>| globs::glob_matches(pattern, rel);
    assert(globs::any_matches(p.sources, rel) == p.sources.any(f));
    if exists|k: int|
        0 <= k < p.sources.len() && globs::glob_matches(#[trigger] p.sources[k], rel) {
        let k = choose|k: int|
            0 <= k < p.sources.len() && globs::glob_matches(#[trigger] p.sources[k], rel);
        assert(f(p.sources[k]));
    }
    if p.sources.any(f) {
        let k = choose|k: int| 0 <= k < p.sources.len() && f(#[trigger] p.sources[k]);
        assert(globs::glob_matches(p.sources[k], rel));
    }
}

/// A file below the root of a project without source globs, however deep, belongs
/// to a project: to that one, or to one whose root is as deep at least. Where the
/// project is the only one, it is the one that changes.
pub proof fn law_file_below_root_changes_a_project(g: GraphModel, file: Seq<char>, i: int)
    requires
        g.wf(),
        0 <= i < g.projects.len(),
        g.projects[i].sources.len() == 0,
        lies_in(g.root, g.projects[i], file),
    ensures
        exists|k: int|
            {
                &&& 0 <= k < g.projects.len()
                &&& g.changed(set![file]) == set![(#[trigger] g.projects[k]).id]
                &&& lies_in(g.root, g.projects[k], file)
                &&& path::parts(path::joined(g.root, g.projects[i].root)).len() <= path::parts(
                    path::joined(g.root, g.projects[k].root),
                ).len()
            },
        g.projects.len() == 1 ==> g.changed(set![file]) == set![g.projects[0].id],
{
    lemma_claim(g, file, i);
    assert(g.projects[i].claims(g.root, file));
    let k = lemma_some_owner(g, file, g.projects.len() as int);
    lemma_claim(g, file, k);
    lemma_one_owner(g, file, k);
}

/// A file below the root of a project one of whose source globs matches its path
/// from there belongs to a project, whichever of the globs it is: to that one, or
/// to one whose root is as deep at least.
pub proof fn law_matched_file_changes_a_project(g: GraphModel, file: Seq<char>, i: int, n: int)
    requires
        g.wf(),
        0 <= i < g.projects.len(),
        0 <= n < g.projects[i].sources.len(),
        lies_in(g.root, g.projects[i], file),
        globs::glob_matches(
            g.projects[i].sources[n],
            path::relative(
                path::joined(g.root, file),
                path::joined(g.root, g.projects[i].root),
            )->0,
        ),
    ensures
        exists|k: int|
            {
                &&& 0 <= k < g.projects.len()
                &&& g.changed(set![file]) == set![(#[trigger] g.projects[k]).id]
                &&& path::parts(path::joined(g.root, g.projects[i].root)).len() <= path::parts(
                    path::joined(g.root, g.projects[k].root),
                ).len()
            },
{
    lemma_claim(g, file, i);
    assert(g.projects[i].claims(g.root, file));
    let k = lemma_some_owner(g, file, g.projects.len() as int);
    lemma_one_owner(g, file, k);
}

/// A project changes only for a file below its root that one of its source globs
/// matches, where it has any. No project with a deeper root has that file, with
/// or without globs, nor an earlier one with a root as deep.
pub proof fn law_changed_project_has_the_file(g: GraphModel, file: Seq<char>, i: int, j: int)
    requires
        g.wf(),
        0 <= i < g.projects.len(),
        g.changed(set![file]).contains(g.projects[i].id),
        0 <= j < g.projects.len(),
        j != i,
    ensures
        ({
            let full = path::joined(g.root, file);
            let p = g.projects[i];
            let q = g.projects[j];
            let p_root = path::joined(g.root, p.root);
            let q_root = path::joined(g.root, q.root);
            let p_matches = exists|k: int|
                0 <= k < p.sources.len() && globs::glob_matches(
                    #[trigger] p.sources[k],
                    path::relative(full, p_root)->0,
                );
            let q_matches = exists|k: int|
                0 <= k < q.sources.len() && globs::glob_matches(
                    #[trigger] q.sources[k],
                    path::relative(full, q_root)->0,
                );
            &&& lies_in(g.root, p, file)
            &&& p.sources.len() == 0 || p_matches
            &&& !g.changed(set![file]).contains(q.id)
            &&& lies_in(g.root, q, file) && (q.sources.len() == 0 || q_matches) ==> {
                &&& path::parts(q_root).len() <= path::parts(p_root).len()
                &&& path::parts(q_root).len() == path::parts(p_root).len() ==> i < j
            }
        }),
{
    let id = g.projects[i].id;
    let (other, k) = choose|other: Seq<char>, k: int| #[trigger]
        set![file].contains(other) && #[trigger] g.is_at(k, id) && g.owns(k, other);
    crate::graph::lemma_place(g, i);
    crate::graph::lemma_place(g, j);
    crate::graph::lemma_place(g, k);
    assert(k == i);
    lemma_claim(g, file, i);
    lemma_claim(g, file, j);
    lemma_one_owner(g, file, i);
    assert(g.projects[i].id != g.projects[j].id) by {
        if i < j {
            assert(g.projects[i].id != g.projects[j].id);
        } else {
            assert(g.projects[j].id != g.projects[i].id);
        }
    }
}

/// What a set of files changes is what its files change, one by one.
pub proof fn law_changed_file_by_file(g: GraphModel, files: Set<Seq<char>>, id: Seq<char>)
    ensures
        g.changed(files).contains(id) <==> exists|file: Seq<char>| #[trigger]
            files.contains(file) && g.changed(set![file]).contains(id),
{
    if g.changed(files).contains(id) {
        let (file, i) = choose|file: Seq<char>, i: int| #[trigger]
            files.contains(file) && #[trigger] g.is_at(i, id) && g.owns(i, file);
        assert(set![file].contains(file));
        assert(g.changed(set![file]).contains(id));
    }
    if exists|file: Seq<char>| #[trigger]
        files.contains(file) && g.changed(set![file]).contains(id) {
        let file = choose|file: Seq<char>| #[trigger]
            files.contains(file) && g.changed(set![file]).contains(id);
        let (other, i) = choose|other: Seq<char>, i: int| #[trigger]
            set![file].contains(other) && #[trigger] g.is_at(i, id) && g.owns(i, other);
        assert(other == file);
    }
}

/// The source globs of the project can be used: each pattern is a glob, and
/// together they compile.
pub open spec fn usable(p: ProjectModel) -> bool {
    &&& forall|k: int|
        0 <= k < p.sources.len() ==> globs::glob_refusal(#[trigger] p.sources[k]) is None
    &&& p.sources.len() > 0 ==> globs::set_compiles(p.sources)
}

/// The first invalid pattern is invalid, and those before it are not.
proof fn lemma_first_invalid(patterns: Seq<Seq<char>>)
    ensures
        match first_invalid(patterns) {
            Some(pattern) => exists|k: int|
                {
                    &&& 0 <= k < patterns.len()
                    &&& #[trigger] patterns[k] == pattern
                    &&& globs::glob_refusal(pattern) is Some
                    &&& forall|m: int|
                        0 <= m < k ==> globs::glob_refusal(#[trigger] patterns[m]) is None
                },
            None => forall|k: int|
                0 <= k < patterns.len() ==> globs::glob_refusal(#[trigger] patterns[k]) is None,
        },
    decreases patterns.len(),
{
    if patterns.len() > 0 {
        let rest = patterns.drop_last();
        let last = patterns.len() - 1;
        lemma_first_invalid(rest);
        match first_invalid(rest) {
            Some(pattern) => {
                let k = choose|k: int|
                    {
                        &&& 0 <= k < rest.len()
                        &&& #[trigger] rest[k] == pattern
                        &&& globs::glob_refusal(pattern) is Some
                        &&& forall|m: int|
                            0 <= m < k ==> globs::glob_refusal(#[trigger] rest[m]) is None
                    };
                assert(patterns[k] == pattern);
                assert forall|m: int| 0 <= m < k implies globs::glob_refusal(
                    #[trigger] patterns[m],
                ) is None by {
                    assert(patterns[m] == rest[m]);
                }
            },
            None => {
                assert forall|m: int| 0 <= m < last implies globs::glob_refusal(
                    #[trigger] patterns[m],
                ) is None by {
                    assert(patterns[m] == rest[m]);
                }
                assert(patterns[last] == patterns.last());
            },
        }
    }
}

/// What is wrong with the source globs of a project: the first pattern that is
/// no glob, with the reason, or else that the patterns do not compile together.
pub proof fn law_glob_problem(p: ProjectModel)
    ensures
        p.glob_problem() is None <==> usable(p),
        match p.glob_problem() {
            Some(GlobProblem::Pattern { project, pattern, cause }) => {
                &&& project == p.id
                &&& globs::glob_refusal(pattern) == Some(cause)
                &&& exists|k: int|
                    {
                        &&& 0 <= k < p.sources.len()
                        &&& #[trigger] p.sources[k] == pattern
                        &&& forall|m: int|
                            0 <= m < k ==> globs::glob_refusal(#[trigger] p.sources[m]) is None
                    }
            },
            Some(GlobProblem::Whole { project }) => {
                &&& project == p.id
                &&& !globs::set_compiles(p.sources)
                &&& forall|m: int|
                    0 <= m < p.sources.len() ==> globs::glob_refusal(
                        #[trigger] p.sources[m],
                    ) is None
            },
            None => true,
        },
{
    lemma_first_invalid(p.sources);
}

/// Changed files are refused exactly where some project has unusable source
/// globs, whichever it is, and the first such project is named.
pub proof fn law_first_problem(projects: Seq<ProjectModel>)
    ensures
        first_problem(projects) is None <==> forall|i: int|
            0 <= i < projects.len() ==> usable(#[trigger] projects[i]),
        first_problem(projects) is Some ==> exists|i: int|
            {
                &&& 0 <= i < projects.len()
                &&& first_problem(projects) == (#[trigger] projects[i]).glob_problem()
                &&& !usable(projects[i])
                &&& forall|j: int| 0 <= j < i ==> usable(#[trigger] projects[j])
            },
    decreases projects.len(),
{
    if projects.len() > 0 {
        let rest = projects.drop_last();
        let last = projects.len() - 1;
        law_first_problem(rest);
        law_glob_problem(projects.last());
        assert(projects[last] == projects.last());
        match first_problem(rest) {
            Some(_) => {
                let i = choose|i: int|
                    {
                        &&& 0 <= i < rest.len()
                        &&& first_problem(rest) == (#[trigger] rest[i]).glob_problem()
                        &&& !usable(rest[i])
                        &&& forall|j: int| 0 <= j < i ==> usable(#[trigger] rest[j])
                    };
                assert(projects[i] == rest[i]);
                assert forall|j: int| 0 <= j < i implies usable(#[trigger] projects[j]) by {
                    assert(projects[j] == rest[j]);
                }
            },
            None => {
                assert forall|j: int| 0 <= j < last implies usable(#[trigger] projects[j]) by {
                    assert(projects[j] == rest[j]);
                }
            },
        }
    }
}

} // verus!
