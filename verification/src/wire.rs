//! The form in which a project graph is handed to other programs.
use vstd::prelude::*;

use crate::graph::GraphModel;
use crate::graph::ProjectGraph;
use crate::ordered;
use crate::ordered::OrderedKey;
use crate::ordered::OrderedMap;
use crate::ordered::OrderedSet;
use crate::project::Project;
use crate::project::ProjectId;
use crate::project::ProjectModel;
use crate::source;
use crate::source::ProjectSource;
use crate::source::SourceModel;
use crate::source::SourceNames;
use crate::text;

verus! {

/// Schema marker for the project-graph wire format. It stays experimental until
/// the shape of the data has settled.
pub const WIRE_SCHEMA_EXPERIMENTAL: &'static str = "mise-project-graph-experimental";

/// A project graph on the wire: its projects by id, and its edges by the ids of
/// their ends.
#[derive(Debug, Clone)]
pub struct WireProjectGraph {
    pub schema: &'static str,
    pub version: u32,
    pub monorepo_root: String,
    pub projects: Vec<WireProject>,
    pub edges: Vec<WireEdge>,
}

/// A project on the wire.
#[derive(Debug, Clone)]
pub struct WireProject {
    pub id: ProjectId,
    pub root: String,
    pub source: ProjectSource,
    pub sources: Vec<String>,
    pub tags: Vec<String>,
    /// The names of the project, by the kebab-case identifiers of their
    /// sources.
    pub foreign_names: OrderedMap<String, String>,
}

/// An edge on the wire: `from` depends on `to`.
#[derive(Debug, Clone)]
pub struct WireEdge {
    pub from: ProjectId,
    pub to: ProjectId,
}

impl OrderedKey for WireProject {
    type Model = Seq<char>;

    open spec fn model(&self) -> Seq<char> {
        self.id@
    }

    open spec fn before(a: Seq<char>, b: Seq<char>) -> bool {
        text::text_before(a, b)
    }

    proof fn irreflexive(a: Seq<char>) {
        text::lemma_text_irreflexive(a);
    }

    proof fn transitive(a: Seq<char>, b: Seq<char>, c: Seq<char>) {
        text::lemma_text_transitive(a, b, c);
    }

    proof fn total(a: Seq<char>, b: Seq<char>) {
        text::lemma_text_total(a, b);
    }

    fn is_before(&self, other: &Self) -> (r: bool) {
        text::text_is_before(self.id.as_str(), other.id.as_str())
    }
}

impl OrderedKey for WireEdge {
    type Model = (Seq<char>, Seq<char>);

    open spec fn model(&self) -> (Seq<char>, Seq<char>) {
        (self.from@, self.to@)
    }

    open spec fn before(a: (Seq<char>, Seq<char>), b: (Seq<char>, Seq<char>)) -> bool {
        text::text_before(a.0, b.0) || (a.0 == b.0 && text::text_before(a.1, b.1))
    }

    proof fn irreflexive(a: (Seq<char>, Seq<char>)) {
        text::lemma_text_irreflexive(a.0);
        text::lemma_text_irreflexive(a.1);
    }

    proof fn transitive(
        a: (Seq<char>, Seq<char>),
        b: (Seq<char>, Seq<char>),
        c: (Seq<char>, Seq<char>),
    ) {
        if text::text_before(a.0, b.0) && text::text_before(b.0, c.0) {
            text::lemma_text_transitive(a.0, b.0, c.0);
        }
        if text::text_before(a.1, b.1) && text::text_before(b.1, c.1) {
            text::lemma_text_transitive(a.1, b.1, c.1);
        }
    }

    proof fn total(a: (Seq<char>, Seq<char>), b: (Seq<char>, Seq<char>)) {
        text::lemma_text_total(a.0, b.0);
        text::lemma_text_total(a.1, b.1);
    }

    fn is_before(&self, other: &Self) -> (r: bool) {
        if text::text_is_before(self.from.as_str(), other.from.as_str()) {
            true
        } else if text::same_text(self.from.as_str(), other.from.as_str()) {
            text::text_is_before(self.to.as_str(), other.to.as_str())
        } else {
            false
        }
    }
}

/// `label` is the identifier of a source that has a name.
pub open spec fn is_label(names: Map<SourceModel, Seq<char>>, label: Seq<char>) -> bool {
    exists|s: SourceModel| #[trigger] names.contains_key(s) && s.label() == label
}

/// The source with the given identifier that has a name.
pub open spec fn labelled_source(
    names: Map<SourceModel, Seq<char>>,
    label: Seq<char>,
) -> SourceModel {
    choose|s: SourceModel| #[trigger] names.contains_key(s) && s.label() == label
}

/// Names by the identifiers of their sources.
pub open spec fn labelled(names: Map<SourceModel, Seq<char>>) -> Map<Seq<char>, Seq<char>> {
    Map::new(
        |label: Seq<char>| is_label(names, label),
        |label: Seq<char>| names[labelled_source(names, label)],
    )
}

/// `w` holds what `p` is.
pub open spec fn describes(w: WireProject, p: ProjectModel) -> bool {
    &&& w.id@ == p.id
    &&& w.root@ == p.root
    &&& w.source@ == p.source
    &&& text::texts(w.sources@) == p.sources
    &&& text::texts(w.tags@) == text::ascending(p.tags)
    &&& source::text_values(w.foreign_names@) == labelled(p.foreign_names)
}

/// Each item of `list` holds what the project at its place is.
pub open spec fn describe_all(list: Seq<WireProject>, projects: Seq<ProjectModel>) -> bool {
    &&& list.len() == projects.len()
    &&& forall|i: int| 0 <= i < list.len() ==> describes(#[trigger] list[i], projects[i])
}

/// Each item of `list` holds the ids at the ends of the edge at its place.
pub open spec fn describe_edges(list: Seq<WireEdge>, g: GraphModel) -> bool {
    &&& list.len() == g.edges.len()
    &&& forall|e: int|
        0 <= e < list.len() ==> (#[trigger] list[e]).model() == (
            g.projects[g.edges[e].0].id,
            g.projects[g.edges[e].1].id,
        )
}

/// `wire` holds the projects of the graph, in the order of their ids.
pub open spec fn holds_projects(wire: Seq<WireProject>, g: GraphModel) -> bool {
    exists|list: Seq<WireProject>| #[trigger]
        describe_all(list, g.projects) && ordered::is_sorted(list, wire)
}

/// `wire` holds the edges of the graph, in the order of the ids at their ends.
pub open spec fn holds_edges(wire: Seq<WireEdge>, g: GraphModel) -> bool {
    exists|list: Seq<WireEdge>| #[trigger]
        describe_edges(list, g) && ordered::is_sorted(list, wire)
}

/// The identifiers of sources with their names.
fn label_names(names: &SourceNames) -> (r: OrderedMap<String, String>)
    ensures
        source::text_values(r@) == labelled(source::text_values(names@)),
{
    let ghost all = names.listed();
    let ghost m = source::text_values(names@);
    let list = names.entries();
    let mut r: OrderedMap<String, String> = OrderedMap::new();
    let mut i: usize = 0;
    while i < list.len()
        invariant
            list@ == all,
            ordered::keys_ascend(all),
            ordered::as_map(all) == names@,
            m == source::text_values(names@),
            i <= all.len(),
            forall|l: Seq<char>| #[trigger]
                r@.contains_key(l) ==> labelled(m).contains_key(l) && r@[l]@ == labelled(m)[l],
            forall|k: int| 0 <= k < i ==> r@.contains_key((#[trigger] all[k]).0@.label()),
        decreases all.len() - i,
    {
        let label = list[i].0.to_string();
        let ghost before = r@;
        r.insert(label, list[i].1.clone());
        proof {
            let s = all[i as int].0@;
            ordered::lemma_entry(all, i as int);
            assert(m.contains_key(s));
            assert(is_label(m, s.label()));
            source::law_labels_distinct(labelled_source(m, s.label()), s);
        }
        i += 1;
    }
    proof {
        let got = source::text_values(r@);
        assert forall|l: Seq<char>| #[trigger]
            got.contains_key(l) <==> labelled(m).contains_key(l) by {
            if labelled(m).contains_key(l) {
                let s = labelled_source(m, l);
                assert(ordered::has_key(all, s));
                let k = ordered::place_of(all, s);
                assert(all[k].0@.label() == l);
            }
        }
        assert(got =~= labelled(m));
    }
    r
}

/// The items of a set of texts in ascending order.
fn tag_list(tags: &OrderedSet<String>) -> (r: Vec<String>)
    ensures
        text::texts(r@) == text::ascending(tags@),
{
    let list = tags.entries();
    let ghost all = list@;
    let mut r: Vec<String> = Vec::new();
    let mut i: usize = 0;
    while i < list.len()
        invariant
            list@ == all,
            i <= all.len(),
            r@.len() == i,
            forall|k: int| 0 <= k < i ==> #[trigger] r@[k] == all[k].0,
        decreases all.len() - i,
    {
        r.push(list[i].0.clone());
        i += 1;
    }
    proof {
        assert forall|a: int, b: int| 0 <= a < b < r@.len() implies String::before(
            #[trigger] r@[a].model(),
            #[trigger] r@[b].model(),
        ) by {
            assert(String::before(all[a].0.model(), all[b].0.model()));
        }
        assert forall|t: Seq<char>| #[trigger]
            ordered::models(r@).contains(t) <==> tags@.contains(t) by {
            if ordered::models(r@).contains(t) {
                let k = choose|k: int| 0 <= k < r@.len() && #[trigger] r@[k].model() == t;
                assert(all[k].0.model() == t);
            }
            if tags@.contains(t) {
                let k = ordered::place_of(all, t);
                assert(ordered::has_key(all, t));
                assert(r@[k].model() == t);
            }
        }
        assert(ordered::models(r@) =~= tags@);
        ordered::lemma_item_order(r@);
    }
    r
}

/// A project as it goes on the wire.
fn wire_project(p: &Project) -> (r: WireProject)
    ensures
        describes(r, p@),
{
    WireProject {
        id: p.id.clone(),
        root: p.root.clone(),
        source: p.source.clone(),
        sources: text::clone_texts(&p.sources),
        tags: tag_list(&p.tags),
        foreign_names: label_names(&p.foreign_names),
    }
}

/// The projects as they go on the wire, in the order in which they came.
fn wire_projects(g: &ProjectGraph) -> (r: Vec<WireProject>)
    ensures
        describe_all(r@, g@.projects),
{
    let ghost projects = g@.projects;
    let list = g.projects();
    let ghost f = |p: &Project| p@;
    let mut r: Vec<WireProject> = Vec::new();
    let mut i: usize = 0;
    proof {
        assert(list@.map_values(f) =~= projects);
    }
    while i < list.len()
        invariant
            f == (|p: &Project| p@),
            list@.map_values(f) == projects,
            i <= list@.len(),
            r@.len() == i,
            forall|k: int| 0 <= k < i ==> describes(#[trigger] r@[k], projects[k]),
        decreases list@.len() - i,
    {
        proof {
            assert(list@.map_values(f)[i as int] == list@[i as int]@);
        }
        r.push(wire_project(list[i]));
        i += 1;
    }
    r
}

/// The edges as they go on the wire, in the order in which they came.
fn wire_edges(g: &ProjectGraph) -> (r: Vec<WireEdge>)
    ensures
        describe_edges(r@, g@),
{
    let ghost m = g@;
    let list = g.projects();
    let ghost f = |p: &Project| p@;
    let ends = g.edges();
    let mut r: Vec<WireEdge> = Vec::new();
    let mut i: usize = 0;
    proof {
        assert(list@.map_values(f) =~= m.projects);
    }
    while i < ends.len()
        invariant
            f == (|p: &Project| p@),
            list@.map_values(f) == m.projects,
            ends@.len() == m.edges.len(),
            forall|e: int|
                0 <= e < ends@.len() ==> {
                    &&& (#[trigger] ends@[e]).0 == m.edges[e].0
                    &&& ends@[e].1 == m.edges[e].1
                    &&& ends@[e].0 < m.projects.len()
                    &&& ends@[e].1 < m.projects.len()
                },
            i <= ends@.len(),
            r@.len() == i,
            forall|e: int|
                0 <= e < i ==> (#[trigger] r@[e]).model() == (
                    m.projects[m.edges[e].0].id,
                    m.projects[m.edges[e].1].id,
                ),
        decreases ends@.len() - i,
    {
        let from: usize = ends[i].0;
        let to: usize = ends[i].1;
        proof {
            assert(list@.map_values(f)[from as int] == list@[from as int]@);
            assert(list@.map_values(f)[to as int] == list@[to as int]@);
        }
        r.push(WireEdge { from: list[from].id.clone(), to: list[to].id.clone() });
        i += 1;
    }
    r
}

impl<'a> From<&'a ProjectGraph> for WireProjectGraph {
    fn from(g: &'a ProjectGraph) -> (r: Self)
        ensures
            r.schema@ == WIRE_SCHEMA_EXPERIMENTAL@,
            r.version == 1,
            r.monorepo_root@ == g@.root,
            holds_projects(r.projects@, g@),
            holds_edges(r.edges@, g@),
    {
        let projects = wire_projects(g);
        let edges = wire_edges(g);
        WireProjectGraph {
            schema: WIRE_SCHEMA_EXPERIMENTAL,
            version: 1,
            monorepo_root: g.root().clone(),
            projects: ordered::sort_items(projects),
            edges: ordered::sort_items(edges),
        }
    }
}

impl<'a> vstd::std_specs::convert::FromSpecImpl<&'a ProjectGraph> for WireProjectGraph {
    open spec fn obeys_from_spec() -> bool {
        false
    }

    open spec fn from_spec(g: &'a ProjectGraph) -> Self {
        arbitrary()
    }
}

/// The ids of projects on the wire.
pub open spec fn wire_ids(list: Seq<WireProject>) -> Seq<Seq<char>> {
    list.map_values(|w: WireProject| w.id@)
}

/// The ends of edges on the wire.
pub open spec fn wire_ends(list: Seq<WireEdge>) -> Seq<(Seq<char>, Seq<char>)> {
    list.map_values(|w: WireEdge| (w.from@, w.to@))
}

/// A sorted list holds the items of the list that it was sorted from.
proof fn lemma_sorted_items<K: OrderedKey>(list: Seq<K>, sorted: Seq<K>)
    requires
        ordered::is_sorted(list, sorted),
    ensures
        forall|x: K| #[trigger] sorted.contains(x) <==> list.contains(x),
{
    list.to_multiset_ensures();
    sorted.to_multiset_ensures();
    assert forall|x: K| #[trigger] sorted.contains(x) <==> list.contains(x) by {
        assert(sorted.contains(x) <==> sorted.to_multiset().count(x) > 0);
        assert(list.contains(x) <==> list.to_multiset().count(x) > 0);
    }
}

/// Items with different models come out of a sort strictly ascending.
proof fn lemma_sorted_ascends<K: OrderedKey>(list: Seq<K>, sorted: Seq<K>)
    requires
        ordered::is_sorted(list, sorted),
        forall|i: int, j: int|
            0 <= i < j < list.len() ==> (#[trigger] list[i]).model() != (
            #[trigger] list[j]).model(),
    ensures
        forall|i: int, j: int|
            0 <= i < j < sorted.len() ==> K::before(
                (#[trigger] sorted[i]).model(),
                (#[trigger] sorted[j]).model(),
            ),
{
    lemma_sorted_items(list, sorted);
    assert(list.no_duplicates()) by {
        assert forall|i: int, j: int|
            0 <= i < list.len() && 0 <= j < list.len() && i != j implies list[i] != list[j] by {
            if i < j {
                assert(list[i].model() != list[j].model());
            } else {
                assert(list[j].model() != list[i].model());
            }
        }
    }
    list.lemma_multiset_has_no_duplicates();
    sorted.lemma_multiset_has_no_duplicates_conv();
    assert forall|i: int, j: int| 0 <= i < j < sorted.len() implies K::before(
        (#[trigger] sorted[i]).model(),
        (#[trigger] sorted[j]).model(),
    ) by {
        assert(sorted.contains(sorted[i]));
        assert(sorted.contains(sorted[j]));
        let a = choose|a: int| 0 <= a < list.len() && list[a] == sorted[i];
        let b = choose|b: int| 0 <= b < list.len() && list[b] == sorted[j];
        assert(sorted[i] != sorted[j]);
        assert(a != b);
        if a < b {
            assert(list[a].model() != list[b].model());
        } else {
            assert(list[b].model() != list[a].model());
        }
        assert(!K::before(sorted[j].model(), sorted[i].model()));
        K::total(sorted[i].model(), sorted[j].model());
    }
}

/// The projects on the wire have the ids of the graph, each once, in ascending
/// order.
pub proof fn law_wire_ids(wire: Seq<WireProject>, g: GraphModel)
    requires
        g.wf(),
        holds_projects(wire, g),
    ensures
        wire_ids(wire) == text::ascending(g.ids()),
{
    let list = choose|list: Seq<WireProject>| #[trigger]
        describe_all(list, g.projects) && ordered::is_sorted(list, wire);
    assert forall|i: int, j: int| 0 <= i < j < list.len() implies (#[trigger] list[i]).model() != (
    #[trigger] list[j]).model() by {
        assert(g.projects[i].id != g.projects[j].id);
    }
    lemma_sorted_ascends(list, wire);
    lemma_sorted_items(list, wire);
    let ids = wire_ids(wire);
    assert forall|i: int, j: int| 0 <= i < j < ids.len() implies text::text_before(
        #[trigger] ids[i],
        #[trigger] ids[j],
    ) by {
        assert(WireProject::before(wire[i].model(), wire[j].model()));
    }
    assert forall|id: Seq<char>| #[trigger] ids.to_set().contains(id) <==> g.ids().contains(id) by {
        if ids.contains(id) {
            let i = choose|i: int| 0 <= i < ids.len() && ids[i] == id;
            assert(wire.contains(wire[i]));
            let k = choose|k: int| 0 <= k < list.len() && list[k] == wire[i];
            assert(g.is_at(k, id));
        }
        if g.has(id) {
            let k = g.place(id);
            assert(g.is_at(k, id));
            assert(describes(list[k], g.projects[k]));
            assert(list.contains(list[k]));
            assert(wire.contains(list[k]));
            let i = choose|i: int| 0 <= i < wire.len() && wire[i] == list[k];
            assert(ids[i] == id);
        }
    }
    assert(ids.to_set() =~= g.ids());
    text::lemma_ascending(ids);
}

/// Each project on the wire holds what the project with its id is.
pub proof fn law_wire_describes(wire: Seq<WireProject>, g: GraphModel, i: int)
    requires
        g.wf(),
        holds_projects(wire, g),
        0 <= i < wire.len(),
    ensures
        g.has(wire[i].id@),
        describes(wire[i], g.projects[g.place(wire[i].id@)]),
{
    let list = choose|list: Seq<WireProject>| #[trigger]
        describe_all(list, g.projects) && ordered::is_sorted(list, wire);
    lemma_sorted_items(list, wire);
    assert(wire.contains(wire[i]));
    let k = choose|k: int| 0 <= k < list.len() && list[k] == wire[i];
    assert(describes(list[k], g.projects[k]));
    crate::graph::lemma_place(g, k);
}

/// The edges on the wire are the dependencies of the graph, each once, in
/// ascending order.
pub proof fn law_wire_edges(wire: Seq<WireEdge>, g: GraphModel)
    requires
        g.wf(),
        holds_edges(wire, g),
    ensures
        forall|i: int, j: int|
            0 <= i < j < wire.len() ==> WireEdge::before(
                (#[trigger] wire[i]).model(),
                (#[trigger] wire[j]).model(),
            ),
        forall|from: Seq<char>, to: Seq<char>| #[trigger]
            wire_ends(wire).contains((from, to)) <==> g.depends(from, to),
{
    let list = choose|list: Seq<WireEdge>| #[trigger]
        describe_edges(list, g) && ordered::is_sorted(list, wire);
    assert forall|i: int, j: int| 0 <= i < j < list.len() implies (#[trigger] list[i]).model() != (
    #[trigger] list[j]).model() by {
        assert(g.edges[i] != g.edges[j]);
        crate::graph::lemma_place(g, g.edges[i].0);
        crate::graph::lemma_place(g, g.edges[i].1);
        crate::graph::lemma_place(g, g.edges[j].0);
        crate::graph::lemma_place(g, g.edges[j].1);
    }
    lemma_sorted_ascends(list, wire);
    lemma_sorted_items(list, wire);
    let ends = wire_ends(wire);
    assert forall|from: Seq<char>, to: Seq<char>| #[trigger]
        ends.contains((from, to)) <==> g.depends(from, to) by {
        if ends.contains((from, to)) {
            let i = choose|i: int| 0 <= i < ends.len() && ends[i] == (from, to);
            assert(wire.contains(wire[i]));
            let k = choose|k: int| 0 <= k < list.len() && list[k] == wire[i];
            assert(list[k].model() == wire[i].model());
            assert(g.is_at(g.edges[k].0, from));
            assert(g.is_at(g.edges[k].1, to));
            assert(g.edges.contains((g.edges[k].0, g.edges[k].1)));
        }
        if g.depends(from, to) {
            let (a, b) = choose|a: int, b: int| #[trigger]
                g.is_at(a, from) && #[trigger] g.is_at(b, to) && g.edges.contains((a, b));
            let k = choose|k: int| 0 <= k < g.edges.len() && g.edges[k] == (a, b);
            assert(list[k].model() == (from, to));
            assert(list.contains(list[k]));
            assert(wire.contains(list[k]));
            let i = choose|i: int| 0 <= i < wire.len() && wire[i] == list[k];
            assert(ends[i] == (from, to));
        }
    }
}

/// Two graphs with the same projects and the same dependencies look the same on
/// the wire, in whatever order they were built.
pub proof fn law_wire_independent_of_order(
    g: GraphModel,
    h: GraphModel,
    wg: WireProjectGraph,
    wh: WireProjectGraph,
)
    requires
        g.wf(),
        h.wf(),
        g.ids() == h.ids(),
        forall|id: Seq<char>| #[trigger]
            g.has(id) ==> g.projects[g.place(id)] == h.projects[h.place(id)],
        forall|a: Seq<char>, b: Seq<char>| #[trigger] g.depends(a, b) <==> h.depends(a, b),
        holds_projects(wg.projects@, g),
        holds_projects(wh.projects@, h),
        holds_edges(wg.edges@, g),
        holds_edges(wh.edges@, h),
    ensures
        wire_ids(wg.projects@) == wire_ids(wh.projects@),
        forall|i: int|
            0 <= i < wg.projects@.len() ==> {
                let p = g.projects[g.place((#[trigger] wg.projects@[i]).id@)];
                describes(wg.projects@[i], p) && describes(wh.projects@[i], p)
            },
        wire_ends(wg.edges@) == wire_ends(wh.edges@),
{
    law_wire_ids(wg.projects@, g);
    law_wire_ids(wh.projects@, h);
    assert forall|i: int| 0 <= i < wg.projects@.len() implies {
        let p = g.projects[g.place((#[trigger] wg.projects@[i]).id@)];
        describes(wg.projects@[i], p) && describes(wh.projects@[i], p)
    } by {
        assert(wire_ids(wg.projects@).len() == wire_ids(wh.projects@).len());
        assert(wire_ids(wg.projects@)[i] == wg.projects@[i].id@);
        assert(wire_ids(wh.projects@)[i] == wh.projects@[i].id@);
        law_wire_describes(wg.projects@, g, i);
        law_wire_describes(wh.projects@, h, i);
    }
    law_wire_edges(wg.edges@, g);
    law_wire_edges(wh.edges@, h);
    let a = wire_ends(wg.edges@);
    let b = wire_ends(wh.edges@);
    lemma_ends_ascend(wg.edges@);
    lemma_ends_ascend(wh.edges@);
    assert forall|m: (Seq<char>, Seq<char>)| #[trigger]
        a.to_set().contains(m) <==> b.to_set().contains(m) by {
        assert(a.contains((m.0, m.1)) <==> g.depends(m.0, m.1));
        assert(b.contains((m.0, m.1)) <==> h.depends(m.0, m.1));
    }
    assert(a.to_set() =~= b.to_set());
    ordered::lemma_ascending_unique::<WireEdge>(a, b);
}

proof fn lemma_ends_ascend(wire: Seq<WireEdge>)
    requires
        forall|i: int, j: int|
            0 <= i < j < wire.len() ==> WireEdge::before(
                (#[trigger] wire[i]).model(),
                (#[trigger] wire[j]).model(),
            ),
    ensures
        ordered::models_ascend::<WireEdge>(wire_ends(wire)),
{
    let ends = wire_ends(wire);
    assert forall|i: int, j: int| 0 <= i < j < ends.len() implies WireEdge::before(
        #[trigger] ends[i],
        #[trigger] ends[j],
    ) by {
        assert(WireEdge::before(wire[i].model(), wire[j].model()));
    }
}

/// Every project of the graph stands on the wire with all that it is: its id, its
/// root, its source, its source globs in their order, its tags in ascending order,
/// and its names by the identifiers of their sources.
pub proof fn law_wire_holds_every_project(wire: Seq<WireProject>, g: GraphModel, k: int)
    requires
        g.wf(),
        holds_projects(wire, g),
        0 <= k < g.projects.len(),
        g.projects[k].tags.finite(),
    ensures
        wire.len() == g.projects.len(),
        exists|i: int|
            {
                let p = g.projects[k];
                &&& 0 <= i < wire.len()
                &&& (#[trigger] wire[i]).id@ == p.id
                &&& wire[i].root@ == p.root
                &&& wire[i].source@ == p.source
                &&& text::texts(wire[i].sources@) == p.sources
                &&& lists_tags(text::texts(wire[i].tags@), p.tags)
                &&& lists_names(wire[i].foreign_names@, p.foreign_names)
            },
{
    let list = choose|list: Seq<WireProject>| #[trigger]
        describe_all(list, g.projects) && ordered::is_sorted(list, wire);
    lemma_sorted_items(list, wire);
    list.to_multiset_ensures();
    wire.to_multiset_ensures();
    let p = g.projects[k];
    assert(describes(list[k], p));
    assert(list.contains(list[k]));
    assert(wire.contains(list[k]));
    let i = choose|i: int| 0 <= i < wire.len() && wire[i] == list[k];
    let w = wire[i];
    lemma_labelled(w, p);
    text::law_ascending(p.tags);
}

/// The list holds the tags, each once and in ascending order.
pub open spec fn lists_tags(list: Seq<Seq<char>>, tags: Set<Seq<char>>) -> bool {
    &&& forall|i: int, j: int|
        0 <= i < j < list.len() ==> text::text_before(#[trigger] list[i], #[trigger] list[j])
    &&& forall|t: Seq<char>| #[trigger] list.contains(t) <==> tags.contains(t)
}

/// The map holds the names by the identifiers of their sources, and no others.
pub open spec fn lists_names(
    map: Map<Seq<char>, String>,
    names: Map<SourceModel, Seq<char>>,
) -> bool {
    &&& forall|s: SourceModel| #[trigger]
        names.contains_key(s) ==> map.contains_key(s.label()) && map[s.label()]@ == names[s]
    &&& forall|label: Seq<char>| #[trigger]
        map.contains_key(label) ==> exists|s: SourceModel| #[trigger]
            names.contains_key(s) && s.label() == label
}

proof fn lemma_labelled(w: WireProject, p: ProjectModel)
    requires
        describes(w, p),
    ensures
        lists_names(w.foreign_names@, p.foreign_names),
{
    let map = w.foreign_names@;
    let names = p.foreign_names;
    let texts = source::text_values(map);
    assert forall|s: SourceModel| #[trigger] names.contains_key(s) implies map.contains_key(
        s.label(),
    ) && map[s.label()]@ == names[s] by {
        assert(is_label(names, s.label()));
        assert(labelled(names).contains_key(s.label()));
        source::law_labels_distinct(labelled_source(names, s.label()), s);
        assert(texts.contains_key(s.label()));
        assert(texts[s.label()] == names[s]);
    }
    assert forall|label: Seq<char>| #[trigger] map.contains_key(label) implies exists|
        s: SourceModel,
    | #[trigger]
        names.contains_key(s) && s.label() == label by {
        assert(texts.contains_key(label));
        assert(labelled(names).contains_key(label));
        assert(is_label(names, label));
    }
}

/// The edges on the wire are as many as the graph has, and ascend by the ids that
/// they lead from, and with the same one by those that they lead to.
pub proof fn law_wire_edges_ascend(wire: Seq<WireEdge>, g: GraphModel, i: int, j: int)
    requires
        g.wf(),
        holds_edges(wire, g),
        0 <= i < j < wire.len(),
    ensures
        wire.len() == g.edges.len(),
        text::text_before(wire[i].from@, wire[j].from@) || (wire[i].from@ == wire[j].from@
            && text::text_before(wire[i].to@, wire[j].to@)),
{
    let list = choose|list: Seq<WireEdge>| #[trigger]
        describe_edges(list, g) && ordered::is_sorted(list, wire);
    list.to_multiset_ensures();
    wire.to_multiset_ensures();
    law_wire_edges(wire, g);
    assert(WireEdge::before(wire[i].model(), wire[j].model()));
}

} // verus!
