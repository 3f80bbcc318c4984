//! The project dependency graph of a monorepo.
use vstd::prelude::*;

use crate::digraph;
use crate::ordered;
use crate::ordered::OrderedMap;
use crate::ordered::OrderedSet;
use crate::project;
use crate::project::Project;
use crate::project::ProjectId;
use crate::project::ProjectModel;
use crate::reach;
use crate::source;
use crate::source::NameCollision;
use crate::source::NameKey;
use crate::source::ProjectSource;
use crate::source::SourceModel;
use crate::source::SourceNames;
use crate::text;

verus! {

/// Project dependency graph for a monorepo.
///
/// `by_id` finds a project by its id, and `name_index` finds its id by a name
/// in the namespace of a source, so that a reference in one format can lead to
/// a project that another format contributed. `collisions` holds the names that
/// a project claimed when another had them, and `cyclic` what the last look for
/// cycles found.
#[derive(Debug)]
pub struct ProjectGraph {
    pub graph: petgraph::graph::DiGraph<Project, ()>,
    pub(crate) by_id: OrderedMap<String, usize>,
    pub(crate) name_index: OrderedMap<NameKey, ProjectId>,
    pub(crate) collisions: OrderedSet<NameCollision>,
    pub(crate) cyclic: bool,
    pub monorepo_root: String,
}

/// What a `ProjectGraph` stands for: the projects in the order in which they
/// came, the edges in the order in which they came, each from the place of a
/// project to the place of one that it depends on, the registered names, and
/// the names that were taken when a project claimed them, each with its source
/// and the id of that project.
pub struct GraphModel {
    pub root: Seq<char>,
    pub projects: Seq<ProjectModel>,
    pub edges: Seq<(int, int)>,
    pub names: Map<(SourceModel, Seq<char>), Seq<char>>,
    pub lost: Set<(SourceModel, Seq<char>, Seq<char>)>,
}

/// `names` with each name of `more` registered for `id`, unless it is taken.
pub open spec fn registered(
    names: Map<(SourceModel, Seq<char>), Seq<char>>,
    more: Map<SourceModel, Seq<char>>,
    id: Seq<char>,
) -> Map<(SourceModel, Seq<char>), Seq<char>> {
    Map::new(
        |k: (SourceModel, Seq<char>)|
            names.contains_key(k) || (more.contains_key(k.0) && more[k.0] == k.1),
        |k: (SourceModel, Seq<char>)|
            if names.contains_key(k) {
                names[k]
            } else {
                id
            },
    )
}

/// The names of `more` that lead to another project than `id`, each with its
/// source and that id.
pub open spec fn taken(
    names: Map<(SourceModel, Seq<char>), Seq<char>>,
    more: Map<SourceModel, Seq<char>>,
    id: Seq<char>,
) -> Set<(SourceModel, Seq<char>, Seq<char>)> {
    Set::new(
        |c: (SourceModel, Seq<char>, Seq<char>)|
            {
                &&& more.contains_key(c.0)
                &&& more[c.0] == c.1
                &&& c.2 == id
                &&& names.contains_key((c.0, c.1))
                &&& names[(c.0, c.1)] != id
            },
    )
}

impl GraphModel {
    /// A graph without projects.
    pub open spec fn empty(root: Seq<char>) -> GraphModel {
        GraphModel {
            root,
            projects: Seq::<ProjectModel>::empty(),
            edges: Seq::<(int, int)>::empty(),
            names: Map::<(SourceModel, Seq<char>), Seq<char>>::empty(),
            lost: Set::<(SourceModel, Seq<char>, Seq<char>)>::empty(),
        }
    }

    /// The project at place `i` has the id `id`.
    pub open spec fn is_at(self, i: int, id: Seq<char>) -> bool {
        0 <= i < self.projects.len() && self.projects[i].id == id
    }

    /// Some project has the id `id`.
    pub open spec fn has(self, id: Seq<char>) -> bool {
        exists|i: int| self.is_at(i, id)
    }

    /// The place of the project with the id `id`.
    pub open spec fn place(self, id: Seq<char>) -> int {
        choose|i: int| self.is_at(i, id)
    }

    /// The name is registered, and leads to the project `id` unless the project
    /// lost it.
    pub open spec fn leads_or_lost(
        self,
        source: SourceModel,
        name: Seq<char>,
        id: Seq<char>,
    ) -> bool {
        &&& self.names.contains_key((source, name))
        &&& self.names[(source, name)] == id || self.lost.contains((source, name, id))
    }

    /// Every registered name leads to a project, every name of a project leads
    /// to it unless the project lost it, and a name that a project lost leads to
    /// another one.
    #[verifier::opaque]
    pub open spec fn names_wf(self) -> bool {
        &&& forall|k: (SourceModel, Seq<char>)| #[trigger]
            self.names.contains_key(k) ==> self.has(self.names[k])
        &&& forall|i: int, s: SourceModel|
            0 <= i < self.projects.len() && #[trigger] self.projects[i].foreign_names.contains_key(
                s,
            ) ==> self.leads_or_lost(s, self.projects[i].foreign_names[s], self.projects[i].id)
        &&& forall|c: (SourceModel, Seq<char>, Seq<char>)| #[trigger]
            self.lost.contains(c) ==> {
                &&& self.has(c.2)
                &&& self.names.contains_key((c.0, c.1))
                &&& self.names[(c.0, c.1)] != c.2
            }
    }

    /// Ids are unique, edges join two different projects and do not repeat,
    /// and the names are in order.
    pub open spec fn wf(self) -> bool {
        &&& forall|i: int, j: int|
            0 <= i < j < self.projects.len() ==> (#[trigger] self.projects[i]).id != (
            #[trigger] self.projects[j]).id
        &&& forall|e: int|
            0 <= e < self.edges.len() ==> {
                &&& 0 <= (#[trigger] self.edges[e]).0 < self.projects.len()
                &&& 0 <= self.edges[e].1 < self.projects.len()
                &&& self.edges[e].0 != self.edges[e].1
            }
        &&& self.edges.no_duplicates()
        &&& self.names_wf()
    }

    /// The graph with `project` added, or merged into the project with its id.
    /// The names of the project are registered; those that another project has
    /// are lost.
    pub open spec fn with_project(self, project: ProjectModel) -> GraphModel {
        let names = registered(self.names, project.foreign_names, project.id);
        let lost = self.lost.union(taken(self.names, project.foreign_names, project.id));
        if self.has(project.id) {
            let i = self.place(project.id);
            GraphModel {
                projects: self.projects.update(i, self.projects[i].merged(project)),
                names,
                lost,
                ..self
            }
        } else {
            GraphModel { projects: self.projects.push(project), names, lost, ..self }
        }
    }

    /// The graph with the edge that `from` depends on `to`, where both are
    /// projects and not the same one.
    pub open spec fn with_edge(self, from: Seq<char>, to: Seq<char>) -> GraphModel {
        let edge = (self.place(from), self.place(to));
        if self.has(from) && self.has(to) && from != to && !self.edges.contains(edge) {
            GraphModel { edges: self.edges.push(edge), ..self }
        } else {
            self
        }
    }

    /// The project `from` depends on the project `to`.
    pub open spec fn depends(self, from: Seq<char>, to: Seq<char>) -> bool {
        exists|i: int, j: int| #[trigger]
            self.is_at(i, from) && #[trigger] self.is_at(j, to) && self.edges.contains((i, j))
    }

    /// The project `from` depends on the project `to`, itself or through
    /// others. Every project does so on itself.
    pub open spec fn depends_transitively(self, from: Seq<char>, to: Seq<char>) -> bool {
        exists|i: int, j: int| #[trigger]
            self.is_at(i, from) && #[trigger] self.is_at(j, to) && reach::reaches(self.edges, i, j)
    }

    /// The ids of the projects.
    pub open spec fn ids(self) -> Set<Seq<char>> {
        Set::new(|id: Seq<char>| self.has(id))
    }

    /// The project depends on one of `seeds`, itself or through others, or it
    /// is one.
    pub open spec fn depends_on_any(self, id: Seq<char>, seeds: Set<Seq<char>>) -> bool {
        exists|seed: Seq<char>| #[trigger]
            seeds.contains(seed) && self.depends_transitively(id, seed)
    }

    /// The projects that depend on one of `seeds`, itself or through others,
    /// and the seeds that are projects.
    pub open spec fn dependents(self, seeds: Set<Seq<char>>) -> Set<Seq<char>> {
        Set::new(|id: Seq<char>| self.depends_on_any(id, seeds))
    }
}

/// A graph without projects is well formed.
pub proof fn lemma_empty(root: Seq<char>)
    ensures
        GraphModel::empty(root).wf(),
{
    reveal(GraphModel::names_wf);
}

/// A registered name leads to a project.
pub proof fn lemma_named(g: GraphModel, key: (SourceModel, Seq<char>))
    requires
        g.wf(),
        g.names.contains_key(key),
    ensures
        g.has(g.names[key]),
{
    reveal(GraphModel::names_wf);
}

/// A name of a project leads to it, unless the project lost it.
pub proof fn lemma_held(g: GraphModel, i: int, s: SourceModel)
    requires
        g.wf(),
        0 <= i < g.projects.len(),
        g.projects[i].foreign_names.contains_key(s),
    ensures
        g.leads_or_lost(s, g.projects[i].foreign_names[s], g.projects[i].id),
{
    reveal(GraphModel::names_wf);
}

/// A name that a project lost leads to another one.
pub proof fn lemma_lost(g: GraphModel, c: (SourceModel, Seq<char>, Seq<char>))
    requires
        g.wf(),
        g.lost.contains(c),
    ensures
        g.has(c.2),
        g.names.contains_key((c.0, c.1)),
        g.names[(c.0, c.1)] != c.2,
{
    reveal(GraphModel::names_wf);
}

/// In a graph with unique ids a project is found at its place.
pub proof fn lemma_place(g: GraphModel, i: int)
    requires
        g.wf(),
        0 <= i < g.projects.len(),
    ensures
        g.has(g.projects[i].id),
        g.place(g.projects[i].id) == i,
{
    let id = g.projects[i].id;
    assert(g.is_at(i, id));
    let j = g.place(id);
    assert(g.is_at(j, id));
    if i < j {
        assert(g.projects[i].id != g.projects[j].id);
    } else if j < i {
        assert(g.projects[j].id != g.projects[i].id);
    }
}

/// Adding a project keeps the graph well formed, and the ids that it has.
pub proof fn lemma_with_project(g: GraphModel, p: ProjectModel)
    requires
        g.wf(),
    ensures
        g.with_project(p).wf(),
        forall|id: Seq<char>| #[trigger]
            g.with_project(p).has(id) <==> g.has(id) || id == p.id,
        forall|id: Seq<char>| g.has(id) ==> #[trigger] g.with_project(p).place(id) == g.place(id),
{
    let h = g.with_project(p);
    if g.has(p.id) {
        let at = g.place(p.id);
        assert(g.is_at(at, p.id));
        assert forall|i: int| 0 <= i < g.projects.len() implies #[trigger] h.projects[i].id
            == g.projects[i].id by {}
        assert forall|i: int, j: int| 0 <= i < j < h.projects.len() implies (
        #[trigger] h.projects[i]).id != (#[trigger] h.projects[j]).id by {
            assert(g.projects[i].id != g.projects[j].id);
        }
    } else {
        assert forall|i: int, j: int| 0 <= i < j < h.projects.len() implies (
        #[trigger] h.projects[i]).id != (#[trigger] h.projects[j]).id by {
            if j < g.projects.len() {
                assert(g.projects[i].id != g.projects[j].id);
            } else {
                assert(!g.is_at(i, p.id));
            }
        }
        assert(h.is_at(g.projects.len() as int, p.id));
    }
    assert forall|id: Seq<char>| #[trigger] h.has(id) <==> g.has(id) || id == p.id by {
        if g.has(id) {
            let i = g.place(id);
            assert(g.is_at(i, id));
            assert(h.is_at(i, id));
        }
        if h.has(id) && id != p.id {
            let i = h.place(id);
            assert(h.is_at(i, id));
            assert(g.is_at(i, id));
        }
        if g.has(p.id) {
            let i = g.place(p.id);
            assert(g.is_at(i, p.id));
            assert(h.is_at(i, p.id));
        }
    }
    assert forall|e: int| 0 <= e < h.edges.len() implies {
        &&& 0 <= (#[trigger] h.edges[e]).0 < h.projects.len()
        &&& 0 <= h.edges[e].1 < h.projects.len()
        &&& h.edges[e].0 != h.edges[e].1
    } by {
        assert(h.edges[e] == g.edges[e]);
    }
    assert(h.names_wf()) by {
        reveal(GraphModel::names_wf);
        assert forall|k: (SourceModel, Seq<char>)| #[trigger]
            h.names.contains_key(k) implies h.has(h.names[k]) by {
            if g.names.contains_key(k) {
                assert(g.has(g.names[k]));
            }
        }
        assert forall|i: int, s: SourceModel|
            0 <= i < h.projects.len() && #[trigger] h.projects[i].foreign_names.contains_key(
                s,
            ) implies h.leads_or_lost(s, h.projects[i].foreign_names[s], h.projects[i].id) by {
            if i < g.projects.len() && g.projects[i].foreign_names.contains_key(s) {
                assert(g.leads_or_lost(s, g.projects[i].foreign_names[s], g.projects[i].id));
            }
        }
        assert forall|c: (SourceModel, Seq<char>, Seq<char>)| #[trigger]
            h.lost.contains(c) implies {
            &&& h.has(c.2)
            &&& h.names.contains_key((c.0, c.1))
            &&& h.names[(c.0, c.1)] != c.2
        } by {
            if g.lost.contains(c) {
                assert(g.has(c.2));
            }
        }
    }
    assert forall|id: Seq<char>| g.has(id) implies #[trigger] h.place(id) == g.place(id) by {
        let i = g.place(id);
        assert(g.is_at(i, id));
        lemma_place(h, i);
    }
}

/// Adding an edge keeps the graph well formed.
pub proof fn lemma_with_edge(g: GraphModel, from: Seq<char>, to: Seq<char>)
    requires
        g.wf(),
    ensures
        g.with_edge(from, to).wf(),
{
    let h = g.with_edge(from, to);
    if h != g {
        let i = g.place(from);
        let j = g.place(to);
        assert(g.is_at(i, from));
        assert(g.is_at(j, to));
        assert(h.edges == g.edges.push((i, j)));
        assert forall|a: int, b: int|
            0 <= a < h.edges.len() && 0 <= b < h.edges.len() && a != b implies h.edges[a]
            != h.edges[b] by {
            if a == g.edges.len() {
                assert(g.edges.contains(g.edges[b]));
            } else if b == g.edges.len() {
                assert(g.edges.contains(g.edges[a]));
            }
        }
        assert(h.names_wf()) by {
            reveal(GraphModel::names_wf);
            assert forall|id: Seq<char>| g.has(id) implies #[trigger] h.has(id) by {
                assert(g.is_at(g.place(id), id));
                assert(h.is_at(g.place(id), id));
            }
        }
    }
}

impl View for ProjectGraph {
    type V = GraphModel;

    closed spec fn view(&self) -> GraphModel {
        GraphModel {
            root: self.monorepo_root@,
            projects: digraph::graph_nodes(self.graph).map_values(|p: Project| p@),
            edges: digraph::graph_edges(self.graph),
            names: self.names(),
            lost: self.collisions@,
        }
    }
}

/// Adds to `existing` what another contribution of the same project brings.
fn absorb(existing: &mut Project, more: &Project)
    ensures
        final(existing)@ == old(existing)@.merged(more@),
{
    let ghost start = existing@;
    let names = more.foreign_names.entries();
    let ghost all = names@;
    let ghost kept = start.foreign_names;
    let mut i: usize = 0;
    while i < names.len()
        invariant
            names@ == all,
            ordered::keys_ascend(all),
            i <= all.len(),
            existing@ == (ProjectModel { foreign_names: existing@.foreign_names, ..start }),
            start.foreign_names == kept,
            forall|k: SourceModel| #[trigger]
                existing@.foreign_names.contains_key(k) <==> kept.contains_key(k) || (exists|j: int|
                    0 <= j < i && #[trigger] all[j].0@ == k),
            forall|k: SourceModel| #[trigger]
                kept.contains_key(k) ==> existing@.foreign_names[k] == kept[k],
            forall|j: int|
                0 <= j < i && !kept.contains_key(#[trigger] all[j].0@)
                    ==> existing@.foreign_names[all[j].0@] == all[j].1@,
        decreases all.len() - i,
    {
        let source = names[i].0.clone();
        let name = names[i].1.clone();
        let ghost before = existing@.foreign_names;
        let ghost raw = existing.foreign_names@;
        proof {
            assert forall|j: int| 0 <= j < i implies #[trigger] all[j].0@ != all[i as int].0@ by {
                ordered::lemma_entry(all, j);
                ordered::lemma_entry(all, i as int);
            }
        }
        existing.foreign_names.insert_new(source, name);
        proof {
            let key = all[i as int].0@;
            if raw.contains_key(key) {
                assert(existing@.foreign_names == before);
                assert(before.contains_key(key));
                assert(kept.contains_key(key));
            } else {
                assert(!before.contains_key(key));
                assert(!kept.contains_key(key));
                assert(existing@.foreign_names =~= before.insert(key, all[i as int].1@));
            }
        }
        i += 1;
    }
    proof {
        let union = more@.foreign_names.union_prefer_right(kept);
        assert forall|k: SourceModel| #[trigger]
            existing@.foreign_names.contains_key(k) <==> union.contains_key(k) by {
            if more.foreign_names@.contains_key(k) {
                assert(all[ordered::place_of(all, k)].0@ == k);
            }
            if exists|j: int| 0 <= j < i && #[trigger] all[j].0@ == k {
                let j = choose|j: int| 0 <= j < i && #[trigger] all[j].0@ == k;
                ordered::lemma_entry(all, j);
            }
        }
        assert forall|k: SourceModel| #[trigger]
            existing@.foreign_names.contains_key(k) implies existing@.foreign_names[k]
            == union[k] by {
            if !kept.contains_key(k) {
                let j = choose|j: int| 0 <= j < i && #[trigger] all[j].0@ == k;
                ordered::lemma_entry(all, j);
            }
        }
        assert(existing@.foreign_names =~= union);
    }
    let ghost named = existing@;
    let tags = more.tags.entries();
    let ghost all_tags = tags@;
    i = 0;
    while i < tags.len()
        invariant
            tags@ == all_tags,
            i <= all_tags.len(),
            existing@ == (ProjectModel { tags: existing@.tags, ..named }),
            forall|t: Seq<char>| #[trigger]
                existing@.tags.contains(t) <==> named.tags.contains(t) || (exists|j: int|
                    0 <= j < i && #[trigger] all_tags[j].0@ == t),
        decreases all_tags.len() - i,
    {
        let tag = tags[i].0.clone();
        existing.tags.insert(tag);
        i += 1;
    }
    proof {
        assert forall|t: Seq<char>| #[trigger]
            existing@.tags.contains(t) <==> named.tags.union(more@.tags).contains(t) by {
            if more@.tags.contains(t) {
                assert(all_tags[ordered::place_of(all_tags, t)].0@ == t);
            }
            if exists|j: int| 0 <= j < i && #[trigger] all_tags[j].0@ == t {
                let j = choose|j: int| 0 <= j < i && #[trigger] all_tags[j].0@ == t;
                ordered::lemma_entry(all_tags, j);
            }
        }
        assert(existing@.tags =~= named.tags.union(more@.tags));
    }
    let ghost tagged = existing@;
    let ghost globs = more@.sources;
    i = 0;
    proof {
        assert(globs.take(0) =~= Seq::<Seq<char>>::empty());
    }
    while i < more.sources.len()
        invariant
            globs == text::texts(more.sources@),
            i <= globs.len(),
            existing@ == (ProjectModel { sources: existing@.sources, ..tagged }),
            existing@.sources == project::with_missing(tagged.sources, globs.take(i as int)),
        decreases globs.len() - i,
    {
        let ghost before = existing@.sources;
        proof {
            assert(globs.take(i + 1).drop_last() =~= globs.take(i as int));
            assert(globs.take(i + 1).last() == more.sources@[i as int]@);
        }
        if !text::has_text(&existing.sources, more.sources[i].as_str()) {
            let glob = more.sources[i].clone();
            existing.sources.push(glob);
            proof {
                assert(existing@.sources =~= before.push(glob@));
            }
        }
        i += 1;
    }
    proof {
        assert(globs.take(i as int) =~= globs);
    }
}

impl ProjectGraph {
    /// The registered names, each with the id that it leads to.
    spec fn names(&self) -> Map<(SourceModel, Seq<char>), Seq<char>> {
        source::text_values(self.name_index@)
    }

    /// `by_id` finds exactly the places of the projects.
    pub closed spec fn indexed(&self) -> bool {
        &&& forall|i: int|
            0 <= i < self@.projects.len() ==> self.by_id@.contains_key(
                (#[trigger] self@.projects[i]).id,
            ) && self.by_id@[self@.projects[i].id] == i
        &&& forall|id: Seq<char>| #[trigger]
            self.by_id@.contains_key(id) ==> self@.is_at(self.by_id@[id] as int, id)
    }

    /// What the last look for cycles found.
    pub closed spec fn flagged(&self) -> bool {
        self.cyclic
    }

    /// The graph is well formed and its index is up to date.
    pub open spec fn wf(&self) -> bool {
        self@.wf() && self.indexed()
    }

    /// A graph without projects.
    pub fn new(monorepo_root: String) -> (r: Self)
        ensures
            r.wf(),
            r@ == GraphModel::empty(monorepo_root@),
            !r.flagged(),
    {
        let r = ProjectGraph {
            graph: digraph::new_graph(),
            by_id: OrderedMap::new(),
            name_index: OrderedMap::new(),
            collisions: OrderedSet::new(),
            cyclic: false,
            monorepo_root,
        };
        proof {
            assert(r@.projects =~= Seq::<ProjectModel>::empty());
            assert(r@.names =~= Map::<(SourceModel, Seq<char>), Seq<char>>::empty());
            lemma_empty(monorepo_root@);
        }
        r
    }

    /// The monorepo root.
    pub fn root(&self) -> (r: &String)
        ensures
            r@ == self@.root,
    {
        &self.monorepo_root
    }

    /// Whether the graph has no projects.
    pub fn is_empty(&self) -> (r: bool)
        ensures
            r == (self@.projects.len() == 0),
    {
        digraph::node_count(&self.graph) == 0
    }

    /// The place of the project with the id `id`.
    fn find(&self, id: &str) -> (r: Option<usize>)
        requires
            self.wf(),
        ensures
            match r {
                Some(i) => self@.is_at(i as int, id@) && self@.has(id@) && self@.place(id@) == i,
                None => !self@.has(id@),
            },
    {
        let key = id.to_owned();
        match self.by_id.get(&key) {
            Some(i) => {
                proof {
                    lemma_place(self@, *i as int);
                }
                Some(*i)
            },
            None => {
                proof {
                    if self@.has(id@) {
                        let i = self@.place(id@);
                        assert(self@.is_at(i, id@));
                        assert(self.by_id@.contains_key(self@.projects[i].id));
                    }
                }
                None
            },
        }
    }

    /// Registers each name for `id`. One that another project has already stays
    /// with it, and the collision is noted.
    fn merge_foreign_names(&mut self, names: &SourceNames, id: &str)
        ensures
            final(self)@ == (GraphModel {
                names: registered(old(self)@.names, source::text_values(names@), id@),
                lost: old(self)@.lost.union(
                    taken(old(self)@.names, source::text_values(names@), id@),
                ),
                ..old(self)@
            }),
            final(self).graph == old(self).graph,
            final(self).by_id == old(self).by_id,
            final(self).monorepo_root == old(self).monorepo_root,
            final(self).cyclic == old(self).cyclic,
    {
        let ghost start = self.names();
        let ghost texts = source::text_values(names@);
        let ghost target = registered(start, texts, id@);
        let ghost noted = self.collisions@;
        let list = names.entries();
        let ghost all = list@;
        let mut i: usize = 0;
        while i < list.len()
            invariant
                list@ == all,
                i <= all.len(),
                self.graph == old(self).graph,
                self.by_id == old(self).by_id,
                self.monorepo_root == old(self).monorepo_root,
                self.cyclic == old(self).cyclic,
                forall|k: (SourceModel, Seq<char>)| #[trigger]
                    self.names().contains_key(k) <==> start.contains_key(k) || (exists|j: int|
                        0 <= j < i && #[trigger] all[j].0@ == k.0 && all[j].1@ == k.1),
                forall|k: (SourceModel, Seq<char>)| #[trigger]
                    self.names().contains_key(k) ==> self.names()[k] == if start.contains_key(k) {
                        start[k]
                    } else {
                        id@
                    },
                forall|c: (SourceModel, Seq<char>, Seq<char>)| #[trigger]
                    self.collisions@.contains(c) <==> noted.contains(c) || {
                        &&& c.2 == id@
                        &&& start.contains_key((c.0, c.1))
                        &&& start[(c.0, c.1)] != id@
                        &&& exists|j: int|
                            0 <= j < i && #[trigger] all[j].0@ == c.0 && all[j].1@ == c.1
                    },
            decreases all.len() - i,
        {
            let key = NameKey { source: list[i].0.clone(), name: list[i].1.clone() };
            let ghost k0 = (all[i as int].0@, all[i as int].1@);
            let ghost before = self.names();
            let ghost raw = self.name_index@;
            let is_taken = match self.name_index.get(&key) {
                Some(owner) => !text::same_text(owner.as_str(), id),
                None => false,
            };
            if is_taken {
                self.collisions.insert(
                    NameCollision {
                        source: list[i].0.clone(),
                        name: list[i].1.clone(),
                        id: id.to_owned(),
                    },
                );
            }
            self.name_index.insert_new(key, id.to_owned());
            proof {
                assert(is_taken <==> start.contains_key(k0) && start[k0] != id@) by {
                    assert(raw.contains_key(k0) <==> before.contains_key(k0));
                }
                if raw.contains_key(k0) {
                    assert(self.names() == before);
                    assert(before.contains_key(k0));
                } else {
                    assert(!before.contains_key(k0));
                    assert(!start.contains_key(k0));
                    assert(self.names() =~= before.insert(k0, id@));
                }
            }
            i += 1;
        }
        proof {
            assert forall|k: (SourceModel, Seq<char>)| #[trigger]
                self.names().contains_key(k) <==> target.contains_key(k) by {
                if texts.contains_key(k.0) && texts[k.0] == k.1 {
                    let j = ordered::place_of(all, k.0);
                    assert(all[j].0@ == k.0);
                    ordered::lemma_entry(all, j);
                }
                if exists|j: int| 0 <= j < i && #[trigger] all[j].0@ == k.0 && all[j].1@ == k.1 {
                    let j = choose|j: int|
                        0 <= j < i && #[trigger] all[j].0@ == k.0 && all[j].1@ == k.1;
                    ordered::lemma_entry(all, j);
                }
            }
            assert(self.names() =~= target);
            let lost = noted.union(taken(start, texts, id@));
            assert forall|c: (SourceModel, Seq<char>, Seq<char>)| #[trigger]
                self.collisions@.contains(c) <==> lost.contains(c) by {
                if texts.contains_key(c.0) && texts[c.0] == c.1 {
                    let j = ordered::place_of(all, c.0);
                    assert(all[j].0@ == c.0);
                    ordered::lemma_entry(all, j);
                }
                if exists|j: int| 0 <= j < i && #[trigger] all[j].0@ == c.0 && all[j].1@ == c.1 {
                    let j = choose|j: int|
                        0 <= j < i && #[trigger] all[j].0@ == c.0 && all[j].1@ == c.1;
                    ordered::lemma_entry(all, j);
                }
            }
            assert(self.collisions@ =~= lost);
        }
    }

    /// Adds a project to the graph if its id is not there, and returns its
    /// place. If the id is there, what the project brings is merged into the
    /// existing one.
    pub fn upsert_project(&mut self, project: Project) -> (r: usize)
        requires
            old(self).wf(),
            old(self)@.with_project(project@).projects.len() <= u32::MAX,
        ensures
            final(self).wf(),
            final(self)@ == old(self)@.with_project(project@),
            final(self).flagged() == old(self).flagged(),
            final(self)@.is_at(r as int, project.id@),
    {
        let ghost start = self@;
        let ghost p = project@;
        proof {
            lemma_with_project(start, p);
        }
        let id = project.id.clone();
        match self.find(id.as_str()) {
            Some(i) => {
                self.merge_foreign_names(&project.foreign_names, id.as_str());
                let ghost nodes = digraph::graph_nodes(self.graph);
                absorb(digraph::node_mut(&mut self.graph, i), &project);
                proof {
                    let merged = start.projects[i as int].merged(p);
                    assert(self@.projects =~= start.projects.update(i as int, merged));
                    assert(self@ == start.with_project(p));
                    assert forall|k: int| 0 <= k < self@.projects.len() implies
                        self.by_id@.contains_key((#[trigger] self@.projects[k]).id)
                        && self.by_id@[self@.projects[k].id] == k by {
                        assert(self@.projects[k].id == start.projects[k].id);
                    }
                    assert forall|x: Seq<char>| #[trigger]
                        self.by_id@.contains_key(x) implies self@.is_at(
                        self.by_id@[x] as int,
                        x,
                    ) by {
                        assert(start.is_at(self.by_id@[x] as int, x));
                    }
                }
                i
            },
            None => {
                self.merge_foreign_names(&project.foreign_names, id.as_str());
                let ghost index = self.by_id@;
                let i: usize = digraph::add_node(&mut self.graph, project);
                self.by_id.insert(id, i);
                proof {
                    assert(self@.projects =~= start.projects.push(p));
                    assert(self@ == start.with_project(p));
                    assert forall|k: int| 0 <= k < self@.projects.len() implies
                        self.by_id@.contains_key((#[trigger] self@.projects[k]).id)
                        && self.by_id@[self@.projects[k].id] == k by {
                        if k < start.projects.len() {
                            assert(self@.projects[k] == start.projects[k]);
                            assert(!start.is_at(k, p.id));
                            assert(index.contains_key(start.projects[k].id));
                        }
                    }
                    assert forall|x: Seq<char>| #[trigger]
                        self.by_id@.contains_key(x) implies self@.is_at(
                        self.by_id@[x] as int,
                        x,
                    ) by {
                        if x != p.id {
                            assert(index.contains_key(x));
                            assert(start.is_at(index[x] as int, x));
                        }
                    }
                }
                i
            },
        }
    }

    /// Adds an edge that `from` depends on `to`. Where one of them is no
    /// project, or both are the same, nothing changes.
    pub fn add_edge(&mut self, from: &str, to: &str)
        requires
            old(self).wf(),
            old(self)@.with_edge(from@, to@).edges.len() <= u32::MAX,
        ensures
            final(self).wf(),
            final(self)@ == old(self)@.with_edge(from@, to@),
            final(self).flagged() == old(self).flagged(),
    {
        let ghost start = self@;
        proof {
            lemma_with_edge(start, from@, to@);
        }
        match (self.find(from), self.find(to)) {
            (Some(i), Some(j)) => {
                if i != j {
                    digraph::update_edge(&mut self.graph, i, j);
                }
                proof {
                    assert(from@ == to@ <==> i == j);
                    assert(self@.projects =~= start.projects);
                    assert(self@ == start.with_edge(from@, to@));
                }
            },
            _ => {},
        }
    }

    /// The id of the project that has the given name in the namespace of a
    /// source.
    pub fn resolve_by_foreign_name(&self, source: &ProjectSource, name: &str) -> (r: Option<
        &ProjectId,
    >)
        ensures
            match r {
                Some(id) => self@.names.contains_key((source@, name@)) && id@ == self@.names[(
                    source@,
                    name@,
                )],
                None => !self@.names.contains_key((source@, name@)),
            },
    {
        let key = NameKey { source: source.clone(), name: name.to_owned() };
        self.name_index.get(&key)
    }

    /// The projects in the order in which they came.
    pub fn projects(&self) -> (r: Vec<&Project>)
        ensures
            r@.map_values(|p: &Project| p@) == self@.projects,
    {
        let n: usize = digraph::node_count(&self.graph);
        let ghost nodes = digraph::graph_nodes(self.graph);
        let mut r: Vec<&Project> = Vec::new();
        let mut i: usize = 0;
        while i < n
            invariant
                nodes == digraph::graph_nodes(self.graph),
                n == nodes.len(),
                i <= n,
                r@.len() == i,
                forall|k: int| 0 <= k < i ==> *(#[trigger] r@[k]) == nodes[k],
            decreases n - i,
        {
            r.push(digraph::node(&self.graph, i));
            i += 1;
        }
        proof {
            assert(r@.map_values(|p: &Project| p@) =~= self@.projects);
        }
        r
    }

    /// The ids of the projects.
    pub fn all_ids(&self) -> (r: OrderedSet<ProjectId>)
        ensures
            r@ == self@.ids(),
    {
        let ghost g = self@;
        let n: usize = digraph::node_count(&self.graph);
        let mut r: OrderedSet<ProjectId> = OrderedSet::new();
        let mut i: usize = 0;
        while i < n
            invariant
                g == self@,
                n == g.projects.len(),
                i <= n,
                forall|id: Seq<char>| #[trigger]
                    r@.contains(id) <==> exists|k: int| k < i && #[trigger] g.is_at(k, id),
            decreases n - i,
        {
            let ghost before = r@;
            let id = digraph::node(&self.graph, i).id.clone();
            r.insert(id);
            proof {
                assert(g.is_at(i as int, id@));
                assert forall|x: Seq<char>| #[trigger] r@.contains(x) <==> exists|k: int|
                    k < i + 1 && #[trigger] g.is_at(k, x) by {
                    if before.contains(x) {
                        let k = choose|k: int| k < i && #[trigger] g.is_at(k, x);
                        assert(g.is_at(k, x));
                    }
                    if exists|k: int| k < i + 1 && #[trigger] g.is_at(k, x) {
                        let k = choose|k: int| k < i + 1 && #[trigger] g.is_at(k, x);
                        if k < i {
                            assert(before.contains(x));
                        }
                    }
                }
            }
            i += 1;
        }
        proof {
            assert forall|id: Seq<char>| #[trigger] r@.contains(id) <==> g.ids().contains(id) by {
                if g.has(id) {
                    assert(g.is_at(g.place(id), id));
                }
            }
            assert(r@ =~= g.ids());
        }
        r
    }

    /// The project with the given id.
    pub fn project(&self, id: &str) -> (r: Option<&Project>)
        requires
            self.wf(),
        ensures
            match r {
                Some(p) => self@.has(id@) && p@ == self@.projects[self@.place(id@)],
                None => !self@.has(id@),
            },
    {
        match self.find(id) {
            Some(i) => Some(digraph::node(&self.graph, i)),
            None => None,
        }
    }

    /// Whether projects depend on each other in a circle.
    pub fn has_cycle(&self) -> (r: bool)
        ensures
            r == reach::cyclic(self@.edges),
    {
        digraph::is_cyclic(&self.graph)
    }

    /// Looks for cycles, and keeps what it found for `cycle_found`.
    pub fn note_cycles(&mut self)
        requires
            old(self).wf(),
        ensures
            final(self).wf(),
            final(self)@ == old(self)@,
            final(self).flagged() == reach::cyclic(final(self)@.edges),
    {
        let ghost before = *self;
        self.cyclic = digraph::is_cyclic(&self.graph);
        proof {
            assert(self@ == before@);
            lemma_indexed(before, *self);
        }
    }

    /// Whether the last look for cycles found one.
    pub fn cycle_found(&self) -> (r: bool)
        ensures
            r == self.flagged(),
    {
        self.cyclic
    }

    /// The names that a project claimed when another one had them, in the order
    /// of their sources and names. Such a name leads to the first project; see
    /// `resolve_by_foreign_name`.
    pub fn name_collisions(&self) -> (r: Vec<NameCollision>)
        ensures
            ordered::items_ascend(r@),
            ordered::models(r@) == self@.lost,
    {
        self.collisions.clone().into_items()
    }
}

/// Two graphs with equal models and indices are well formed together.
proof fn lemma_indexed(a: ProjectGraph, b: ProjectGraph)
    requires
        a@ == b@,
        a.by_id@ == b.by_id@,
    ensures
        a.indexed() == b.indexed(),
{
    assert(a.indexed() ==> b.indexed());
    assert(b.indexed() ==> a.indexed());
}

impl Clone for ProjectGraph {
    fn clone(&self) -> (r: Self)
        ensures
            r@ == self@,
            r.indexed() == self.indexed(),
            r.flagged() == self.flagged(),
    {
        let r = ProjectGraph {
            graph: digraph::copy_graph(&self.graph),
            by_id: self.by_id.clone(),
            name_index: self.name_index.clone(),
            collisions: self.collisions.clone(),
            cyclic: self.cyclic,
            monorepo_root: self.monorepo_root.clone(),
        };
        proof {
            lemma_indexed(*self, r);
        }
        r
    }
}

impl Default for ProjectGraph {
    fn default() -> (r: Self)
        ensures
            r.wf(),
            r@ == GraphModel::empty(Seq::<char>::empty()),
            !r.flagged(),
    {
        let root = String::new();
        proof {
            assert(root@ =~= Seq::<char>::empty());
        }
        ProjectGraph::new(root)
    }
}

/// `order` lists the marked nodes out of `nodes`, each once.
spec fn lists_marked(nodes: nat, order: Seq<usize>, marked: Seq<bool>) -> bool {
    &&& marked.len() == nodes
    &&& order.no_duplicates()
    &&& forall|k: int|
        0 <= k < order.len() ==> (#[trigger] order[k]) < nodes && marked[order[k] as int]
    &&& forall|x: int| 0 <= x < nodes && #[trigger] marked[x] ==> order.contains(x as usize)
    &&& nodes <= usize::MAX
}

/// No more nodes can be listed than there are.
proof fn lemma_listed_len(nodes: nat, order: Seq<usize>, marked: Seq<bool>)
    requires
        lists_marked(nodes, order, marked),
    ensures
        order.len() <= nodes,
{
    let list = digraph::ints(order);
    assert(list.no_duplicates()) by {
        assert forall|a: int, b: int|
            0 <= a < list.len() && 0 <= b < list.len() && a != b implies list[a] != list[b] by {
            assert(order[a] != order[b]);
        }
    }
    list.unique_seq_to_set();
    vstd::set_lib::lemma_int_range(0, nodes as int);
    assert forall|x: int| list.to_set().contains(x) implies vstd::set_lib::set_int_range(
        0,
        nodes as int,
    ).contains(x) by {
        let k = choose|k: int| 0 <= k < list.len() && list[k] == x;
        assert(order[k] < nodes);
    }
    vstd::set_lib::lemma_len_subset(
        list.to_set(),
        vstd::set_lib::set_int_range(0, nodes as int),
    );
}

/// Marks and lists `x` unless it is marked.
fn visit(order: &mut Vec<usize>, marked: &mut Vec<bool>, x: usize)
    requires
        lists_marked(old(marked)@.len(), old(order)@, old(marked)@),
        x < old(marked)@.len(),
    ensures
        lists_marked(final(marked)@.len(), final(order)@, final(marked)@),
        final(marked)@ == old(marked)@.update(x as int, true),
        old(order)@.is_prefix_of(final(order)@),
        forall|k: int|
            old(order)@.len() <= k < final(order)@.len() ==> #[trigger] final(order)@[k] == x,
{
    let ghost before = order@;
    let ghost flags = marked@;
    if !marked[x] {
        marked.set(x, true);
        order.push(x);
        proof {
            assert forall|k: int| 0 <= k < before.len() implies before[k] != x by {
                assert(flags[before[k] as int]);
            }
            assert forall|y: int| 0 <= y < marked@.len() && #[trigger] marked@[y] implies
                order@.contains(y as usize) by {
                if y != x {
                    assert(flags[y]);
                    let k = choose|k: int| 0 <= k < before.len() && before[k] == y as usize;
                    assert(order@[k] == y as usize);
                } else {
                    assert(order@[before.len() as int] == x);
                }
            }
        }
    } else {
        proof {
            assert(marked@ =~= flags.update(x as int, true));
        }
    }
    proof {
        assert(before =~= order@.subrange(0, before.len() as int));
    }
}

/// The incoming neighbours of a node are the beginnings of the edges to it.
proof fn lemma_incoming(edges: Seq<(int, int)>, node: int, list: Seq<int>)
    requires
        list.to_multiset() == edges.filter(|e: (int, int)| e.1 == node).map_values(
            |e: (int, int)| e.0,
        ).to_multiset(),
    ensures
        forall|y: int| #[trigger] list.contains(y) <==> edges.contains((y, node)),
{
    let p = |e: (int, int)| e.1 == node;
    let kept = edges.filter(p);
    let begins = kept.map_values(|e: (int, int)| e.0);
    list.to_multiset_ensures();
    begins.to_multiset_ensures();
    assert forall|y: int| #[trigger] list.contains(y) <==> edges.contains((y, node)) by {
        assert(list.contains(y) <==> list.to_multiset().count(y) > 0);
        assert(begins.contains(y) <==> begins.to_multiset().count(y) > 0);
        if begins.contains(y) {
            let m = choose|m: int| 0 <= m < begins.len() && begins[m] == y;
            assert(kept[m].0 == y);
            edges.lemma_filter_pred(p, m);
            assert(kept.contains(kept[m]));
            edges.lemma_filter_contains_rev(p, kept[m]);
        }
        if edges.contains((y, node)) {
            let k = choose|k: int| 0 <= k < edges.len() && edges[k] == (y, node);
            edges.lemma_filter_contains(p, k);
            let m = choose|m: int| 0 <= m < kept.len() && kept[m] == (y, node);
            assert(begins[m] == y);
        }
    }
}

/// `x` reaches one of the listed nodes.
spec fn reaches_listed(edges: Seq<(int, int)>, x: int, list: Seq<usize>) -> bool {
    exists|k: int| 0 <= k < list.len() && reach::reaches(edges, x, #[trigger] list[k] as int)
}

/// Marks and lists the beginnings of the edges to `x`.
fn expand(
    graph: &petgraph::graph::DiGraph<Project, ()>,
    order: &mut Vec<usize>,
    marked: &mut Vec<bool>,
    x: usize,
)
    requires
        lists_marked(digraph::graph_nodes(*graph).len(), old(order)@, old(marked)@),
        x < digraph::graph_nodes(*graph).len(),
    ensures
        lists_marked(digraph::graph_nodes(*graph).len(), final(order)@, final(marked)@),
        old(order)@.is_prefix_of(final(order)@),
        forall|y: int|
            0 <= y < old(marked)@.len() && #[trigger] old(marked)@[y] ==> final(marked)@[y],
        forall|y: int| #[trigger]
            digraph::graph_edges(*graph).contains((y, x as int)) ==> 0 <= y < final(marked)@.len()
                && final(marked)@[y],
        forall|k: int|
            old(order)@.len() <= k < final(order)@.len() ==> digraph::graph_edges(*graph).contains(
                (#[trigger] final(order)@[k] as int, x as int),
            ),
{
    let ghost edges = digraph::graph_edges(*graph);
    let ghost n = digraph::graph_nodes(*graph).len();
    let ghost start = order@;
    let ghost flags = marked@;
    let near = digraph::incoming(graph, x);
    let ghost list = digraph::ints(near@);
    proof {
        lemma_incoming(edges, x as int, list);
    }
    let mut m: usize = 0;
    while m < near.len()
        invariant
            list == digraph::ints(near@),
            forall|y: int| #[trigger] list.contains(y) <==> edges.contains((y, x as int)),
            forall|i: int| 0 <= i < near@.len() ==> #[trigger] near@[i] < n,
            m <= near@.len(),
            lists_marked(n, order@, marked@),
            start.is_prefix_of(order@),
            flags.len() == n,
            forall|y: int| 0 <= y < n && #[trigger] flags[y] ==> marked@[y],
            forall|i: int| 0 <= i < m ==> marked@[#[trigger] near@[i] as int],
            forall|k: int|
                start.len() <= k < order@.len() ==> edges.contains(
                    (#[trigger] order@[k] as int, x as int),
                ),
        decreases near@.len() - m,
    {
        let ghost before = order@;
        let y: usize = near[m];
        proof {
            assert(list[m as int] == y);
            assert(list.contains(y as int));
        }
        visit(order, marked, y);
        proof {
            assert forall|k: int| start.len() <= k < order@.len() implies edges.contains(
                (#[trigger] order@[k] as int, x as int),
            ) by {
                if k < before.len() {
                    assert(order@[k] == before[k]);
                }
            }
            assert(start =~= order@.subrange(0, start.len() as int)) by {
                assert forall|k: int| 0 <= k < start.len() implies start[k] == order@[k] by {
                    assert(start[k] == before[k]);
                    assert(before[k] == order@[k]);
                }
            }
        }
        m += 1;
    }
    proof {
        assert forall|y: int| #[trigger] edges.contains((y, x as int)) implies 0 <= y
            < marked@.len() && marked@[y] by {
            assert(list.contains(y));
            let i = choose|i: int| 0 <= i < list.len() && list[i] == y;
            assert(near@[i] as int == y);
        }
    }
}

/// Marks and lists every node that reaches a listed one.
#[verifier::spinoff_prover]
fn close_backwards(
    graph: &petgraph::graph::DiGraph<Project, ()>,
    order: &mut Vec<usize>,
    marked: &mut Vec<bool>,
)
    requires
        lists_marked(digraph::graph_nodes(*graph).len(), old(order)@, old(marked)@),
    ensures
        lists_marked(digraph::graph_nodes(*graph).len(), final(order)@, final(marked)@),
        old(order)@.is_prefix_of(final(order)@),
        forall|k: int|
            0 <= k < final(order)@.len() ==> reaches_listed(
                digraph::graph_edges(*graph),
                #[trigger] final(order)@[k] as int,
                old(order)@,
            ),
        forall|y: int, z: int| #[trigger]
            digraph::graph_edges(*graph).contains((y, z)) && 0 <= z < final(marked)@.len()
                && final(marked)@[z] ==> 0 <= y < final(marked)@.len() && final(marked)@[y],
{
    let ghost edges = digraph::graph_edges(*graph);
    let ghost n = digraph::graph_nodes(*graph).len();
    let ghost start = order@;
    proof {
        assert forall|k: int| 0 <= k < order@.len() implies reaches_listed(
            edges,
            #[trigger] order@[k] as int,
            start,
        ) by {
            reach::lemma_reaches_self(edges, start[k] as int);
        }
    }
    let mut next: usize = 0;
    while next < order.len()
        invariant
            edges == digraph::graph_edges(*graph),
            n == digraph::graph_nodes(*graph).len(),
            next <= order@.len(),
            lists_marked(n, order@, marked@),
            start.is_prefix_of(order@),
            forall|k: int|
                0 <= k < order@.len() ==> reaches_listed(
                    edges,
                    #[trigger] order@[k] as int,
                    start,
                ),
            forall|k: int, y: int|
                0 <= k < next && #[trigger] edges.contains((y, #[trigger] order@[k] as int)) ==> 0
                    <= y < n && marked@[y],
        decreases n - next,
    {
        proof {
            lemma_listed_len(n, order@, marked@);
        }
        let x: usize = order[next];
        let ghost before = order@;
        let ghost flags = marked@;
        expand(graph, order, marked, x);
        proof {
            assert forall|k: int| 0 <= k < before.len() implies order@[k] == before[k] by {}
            assert forall|k: int| 0 <= k < start.len() implies start[k] == order@[k] by {
                assert(start[k] == before[k]);
            }
            assert(start =~= order@.subrange(0, start.len() as int));
            assert forall|k: int| 0 <= k < order@.len() implies reaches_listed(
                edges,
                #[trigger] order@[k] as int,
                start,
            ) by {
                if k < before.len() {
                    assert(order@[k] == before[k]);
                } else {
                    assert(reaches_listed(edges, before[next as int] as int, start));
                    let s = choose|s: int|
                        0 <= s < start.len() && reach::reaches(
                            edges,
                            x as int,
                            #[trigger] start[s] as int,
                        );
                    reach::lemma_reaches_step(
                        edges,
                        order@[k] as int,
                        x as int,
                        start[s] as int,
                    );
                }
            }
            assert forall|k: int, y: int|
                0 <= k < next + 1 && #[trigger] edges.contains(
                    (y, #[trigger] order@[k] as int),
                ) implies 0 <= y < n && marked@[y] by {
                if k < next {
                    assert(order@[k] == before[k]);
                    assert(flags[y]);
                }
            }
        }
        next += 1;
    }
    proof {
        assert forall|y: int, z: int| #[trigger]
            edges.contains((y, z)) && 0 <= z < marked@.len() && marked@[z] implies 0 <= y
            < marked@.len() && marked@[y] by {
            assert(order@.contains(z as usize));
            let k = choose|k: int| 0 <= k < order@.len() && order@[k] == z as usize;
            assert(edges.contains((y, order@[k] as int)));
        }
    }
}

/// Some listed node is the place of the project with the id `id`.
spec fn lists_id(g: GraphModel, list: Seq<usize>, id: Seq<char>) -> bool {
    exists|k: int| 0 <= k < list.len() && (#[trigger] g.projects[list[k] as int]).id == id
}

/// A listed project is a dependent, where each listed node reaches one with
/// which the list began.
proof fn lemma_listed_depends(
    g: GraphModel,
    wanted: Seq<Seq<char>>,
    start: Seq<usize>,
    order: Seq<usize>,
    id: Seq<char>,
)
    requires
        forall|k: int| 0 <= k < order.len() ==> (#[trigger] order[k]) < g.projects.len(),
        forall|k: int|
            0 <= k < start.len() ==> (#[trigger] start[k]) < g.projects.len() && wanted.contains(
                g.projects[start[k] as int].id,
            ),
        forall|k: int|
            0 <= k < order.len() ==> reaches_listed(g.edges, #[trigger] order[k] as int, start),
        lists_id(g, order, id),
    ensures
        g.dependents(wanted.to_set()).contains(id),
{
    let seed_set = wanted.to_set();
    let k = choose|k: int|
        0 <= k < order.len() && (#[trigger] g.projects[order[k] as int]).id == id;
    let x = order[k] as int;
    assert(reaches_listed(g.edges, order[k] as int, start));
    let s = choose|s: int|
        0 <= s < start.len() && reach::reaches(g.edges, x, #[trigger] start[s] as int);
    let seed = g.projects[start[s] as int].id;
    assert(seed_set.contains(seed));
    assert(g.is_at(x, id));
    assert(g.is_at(start[s] as int, seed));
    assert(g.depends_transitively(id, seed));
}

/// A dependent is marked, where the seeds are and the marks are closed
/// backwards.
proof fn lemma_dependent_marked(
    g: GraphModel,
    wanted: Seq<Seq<char>>,
    marked: Seq<bool>,
    id: Seq<char>,
) -> (a: int)
    requires
        marked.len() == g.projects.len(),
        forall|j: int|
            0 <= j < marked.len() && wanted.contains((#[trigger] g.projects[j]).id) ==> marked[j],
        forall|y: int, z: int| #[trigger]
            g.edges.contains((y, z)) && 0 <= z < marked.len() && marked[z] ==> 0 <= y
                < marked.len() && marked[y],
        g.dependents(wanted.to_set()).contains(id),
    ensures
        g.is_at(a, id),
        marked[a],
{
    let seed_set = wanted.to_set();
    let seed = choose|seed: Seq<char>| #[trigger]
        seed_set.contains(seed) && g.depends_transitively(id, seed);
    let (a, b) = choose|a: int, b: int| #[trigger]
        g.is_at(a, id) && #[trigger] g.is_at(b, seed) && reach::reaches(g.edges, a, b);
    assert(wanted.contains(g.projects[b].id));
    let inside = Set::new(|x: int| 0 <= x < marked.len() && marked[x]);
    assert(inside.contains(b));
    let walk = choose|walk: Seq<int>| reach::leads(g.edges, walk, a, b);
    reach::lemma_closed_backwards(g.edges, inside, walk, a, b);
    assert(inside.contains(a));
    a
}

impl ProjectGraph {
    /// Marks and lists the projects among `seeds`.
    fn mark_seeds(&self, seeds: &[ProjectId]) -> (r: (Vec<usize>, Vec<bool>))
        requires
            self.wf(),
        ensures
            lists_marked(self@.projects.len(), r.0@, r.1@),
            forall|k: int|
                0 <= k < r.0@.len() ==> text::texts(seeds@).contains(
                    self@.projects[#[trigger] r.0@[k] as int].id,
                ),
            forall|j: int|
                0 <= j < r.1@.len() && text::texts(seeds@).contains(
                    (#[trigger] self@.projects[j]).id,
                ) ==> r.1@[j],
    {
        let ghost g = self@;
        let ghost wanted = text::texts(seeds@);
        let n: usize = digraph::node_count(&self.graph);
        let mut marked: Vec<bool> = Vec::new();
        let mut order: Vec<usize> = Vec::new();
        let mut i: usize = 0;
        while i < n
            invariant
                i <= n,
                marked@.len() == i,
                forall|k: int| 0 <= k < i ==> !(#[trigger] marked@[k]),
            decreases n - i,
        {
            marked.push(false);
            i += 1;
        }
        i = 0;
        while i < seeds.len()
            invariant
                self.wf(),
                g == self@,
                wanted == text::texts(seeds@),
                n == g.projects.len(),
                i <= seeds@.len(),
                lists_marked(n as nat, order@, marked@),
                forall|k: int|
                    0 <= k < order@.len() ==> wanted.contains(
                        g.projects[#[trigger] order@[k] as int].id,
                    ),
                forall|j: int|
                    0 <= j < n && wanted.take(i as int).contains((#[trigger] g.projects[j]).id)
                        ==> marked@[j],
            decreases seeds@.len() - i,
        {
            let ghost before = order@;
            let ghost flags = marked@;
            let found = self.find(seeds[i].as_str());
            proof {
                assert(wanted[i as int] == seeds@[i as int]@);
                assert(wanted.take(i + 1) =~= wanted.take(i as int).push(wanted[i as int]));
            }
            if let Some(j) = found {
                visit(&mut order, &mut marked, j);
            }
            proof {
                assert forall|k: int| 0 <= k < order@.len() implies wanted.contains(
                    g.projects[#[trigger] order@[k] as int].id,
                ) by {
                    if k < before.len() {
                        assert(order@[k] == before[k]);
                    }
                }
                assert forall|j: int|
                    0 <= j < n && wanted.take(i + 1).contains(
                        (#[trigger] g.projects[j]).id,
                    ) implies marked@[j] by {
                    let id = g.projects[j].id;
                    let more = wanted.take(i + 1);
                    let w = choose|w: int| 0 <= w < more.len() && more[w] == id;
                    if w < i {
                        assert(wanted.take(i as int)[w] == id);
                        assert(flags[j]);
                    } else {
                        lemma_place(g, j);
                    }
                }
            }
            i += 1;
        }
        proof {
            assert(wanted.take(i as int) =~= wanted);
        }
        (order, marked)
    }

    /// The ids of the listed projects.
    fn ids_at(&self, order: &Vec<usize>) -> (r: OrderedSet<ProjectId>)
        requires
            forall|k: int| 0 <= k < order@.len() ==> #[trigger] order@[k] < self@.projects.len(),
        ensures
            forall|id: Seq<char>| #[trigger] r@.contains(id) <==> lists_id(self@, order@, id),
    {
        let ghost g = self@;
        let mut out: OrderedSet<ProjectId> = OrderedSet::new();
        let mut next: usize = 0;
        while next < order.len()
            invariant
                g == self@,
                next <= order@.len(),
                forall|k: int| 0 <= k < order@.len() ==> #[trigger] order@[k] < g.projects.len(),
                forall|id: Seq<char>| #[trigger]
                    out@.contains(id) <==> lists_id(g, order@.take(next as int), id),
            decreases order@.len() - next,
        {
            let ghost inserted = out@;
            let id = digraph::node(&self.graph, order[next]).id.clone();
            out.insert(id);
            proof {
                let x = order@[next as int] as int;
                let some = order@.take(next as int);
                let more = order@.take(next + 1);
                assert(id@ == g.projects[x].id);
                assert forall|y: Seq<char>| #[trigger] out@.contains(y) <==> lists_id(
                    g,
                    more,
                    y,
                ) by {
                    if inserted.contains(y) {
                        let k = choose|k: int|
                            0 <= k < some.len() && (#[trigger] g.projects[some[k] as int]).id == y;
                        assert(g.projects[more[k] as int].id == y);
                    }
                    if y == id@ {
                        assert(g.projects[more[next as int] as int].id == y);
                    }
                    if lists_id(g, more, y) {
                        let k = choose|k: int|
                            0 <= k < more.len() && (#[trigger] g.projects[more[k] as int]).id == y;
                        if k < next {
                            assert(g.projects[some[k] as int].id == y);
                        }
                    }
                }
            }
            next += 1;
        }
        proof {
            assert(order@.take(next as int) =~= order@);
        }
        out
    }

    /// The ids of all projects that depend on one of `seeds`, itself or
    /// through others. The seeds that are projects are among them.
    #[verifier::spinoff_prover]
    pub fn transitive_dependents(&self, seeds: &[ProjectId]) -> (r: OrderedSet<ProjectId>)
        requires
            self.wf(),
        ensures
            r@ == self@.dependents(text::texts(seeds@).to_set()),
    {
        let ghost g = self@;
        let ghost wanted = text::texts(seeds@);
        let (mut order, mut marked) = self.mark_seeds(seeds);
        let ghost start = order@;
        let ghost flags = marked@;
        close_backwards(&self.graph, &mut order, &mut marked);
        let out = self.ids_at(&order);
        proof {
            let target = g.dependents(wanted.to_set());
            assert forall|j: int|
                0 <= j < marked@.len() && wanted.contains(
                    (#[trigger] g.projects[j]).id,
                ) implies marked@[j] by {
                assert(flags[j]);
                let s = choose|s: int| 0 <= s < start.len() && start[s] == j as usize;
                assert(order@[s] == start[s]);
            }
            assert forall|id: Seq<char>| #[trigger] out@.contains(id) <==> target.contains(id) by {
                if out@.contains(id) {
                    lemma_listed_depends(g, wanted, start, order@, id);
                }
                if target.contains(id) {
                    let a = lemma_dependent_marked(g, wanted, marked@, id);
                    assert(order@.contains(a as usize));
                    let k = choose|k: int| 0 <= k < order@.len() && order@[k] == a as usize;
                    assert(g.projects[order@[k] as int].id == id);
                }
            }
            assert(out@ =~= target);
        }
        out
    }

    /// The edges in the order in which they came, each as two places.
    pub(crate) fn edges(&self) -> (r: Vec<(usize, usize)>)
        ensures
            r@.len() == self@.edges.len(),
            forall|e: int|
                0 <= e < r@.len() ==> {
                    &&& (#[trigger] r@[e]).0 == self@.edges[e].0
                    &&& r@[e].1 == self@.edges[e].1
                    &&& r@[e].0 < self@.projects.len()
                    &&& r@[e].1 < self@.projects.len()
                },
    {
        let ghost g = self@;
        let n: usize = digraph::edge_count(&self.graph);
        let mut r: Vec<(usize, usize)> = Vec::new();
        let mut i: usize = 0;
        while i < n
            invariant
                g == self@,
                n == g.edges.len(),
                i <= n,
                r@.len() == i,
                forall|e: int|
                    0 <= e < r@.len() ==> {
                        &&& (#[trigger] r@[e]).0 == g.edges[e].0
                        &&& r@[e].1 == g.edges[e].1
                        &&& r@[e].0 < g.projects.len()
                        &&& r@[e].1 < g.projects.len()
                    },
            decreases n - i,
        {
            if let Some(ends) = digraph::edge_endpoints(&self.graph, i) {
                r.push(ends);
            }
            i += 1;
        }
        r
    }

    /// Whether there is room for a project with the given id.
    pub fn has_room_for_project(&self, id: &str) -> (r: bool)
        requires
            self.wf(),
        ensures
            r == (self@.has(id@) || self@.projects.len() < u32::MAX),
    {
        self.find(id).is_some() || digraph::node_count(&self.graph) < u32::MAX as usize
    }

    /// Whether there is room for the edge that `from` depends on `to`.
    pub fn has_room_for_edge(&self, from: &str, to: &str) -> (r: bool)
        requires
            self.wf(),
        ensures
            r == (self@.with_edge(from@, to@).edges.len() <= u32::MAX),
    {
        let n: usize = digraph::edge_count(&self.graph);
        if n < u32::MAX as usize {
            return true;
        }
        let ghost g = self@;
        match (self.find(from), self.find(to)) {
            (Some(i), Some(j)) => {
                proof {
                    assert(from@ == to@ <==> i == j);
                }
                let list = self.edges();
                let mut e: usize = 0;
                while e < list.len()
                    invariant
                        g == self@,
                        n == g.edges.len(),
                        n >= u32::MAX,
                        g.place(from@) == i,
                        g.place(to@) == j,
                        list@.len() == g.edges.len(),
                        forall|k: int|
                            0 <= k < list@.len() ==> (#[trigger] list@[k]).0 == g.edges[k].0
                                && list@[k].1 == g.edges[k].1,
                        e <= list@.len(),
                        forall|k: int| 0 <= k < e ==> #[trigger] g.edges[k] != (i as int, j as int),
                    decreases list@.len() - e,
                {
                    if list[e].0 == i && list[e].1 == j {
                        proof {
                            assert(g.edges[e as int] == (i as int, j as int));
                            assert(g.edges.contains((i as int, j as int)));
                        }
                        return n == u32::MAX as usize;
                    }
                    e += 1;
                }
                i == j && n == u32::MAX as usize
            },
            _ => n == u32::MAX as usize,
        }
    }

    /// The groups of projects that depend on each other, as places.
    pub(crate) fn components(&self) -> (r: Vec<Vec<usize>>)
        ensures
            reach::strong_components(
                self@.projects.len(),
                self@.edges,
                r@.map_values(|group: Vec<usize>| digraph::ints(group@)),
            ),
    {
        digraph::components(&self.graph)
    }

    /// The graph in the DOT language, each project with its id as the label.
    pub fn to_dot(&self) -> (r: String)
        ensures
            r@ == digraph::dot_text(
                self@.projects.map_values(|p: ProjectModel| digraph::label_attribute(p.id)),
                self@.edges,
            ),
    {
        let r = digraph::render_dot(&self.graph);
        proof {
            assert(self@.projects.map_values(|p: ProjectModel| digraph::label_attribute(p.id))
                =~= digraph::graph_nodes(self.graph).map_values(
                |p: Project| digraph::label_attribute(p.id@),
            ));
        }
        r
    }
}

} // verus!
