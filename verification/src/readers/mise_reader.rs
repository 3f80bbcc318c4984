//! Projects that `mise.toml` files declare.
use vstd::prelude::*;

use crate::graph::GraphModel;
use crate::lists;
use crate::path;
use crate::reader;
use crate::reader::ContextModel;
use crate::reader::ContributedEdge;
use crate::reader::ContributedProject;
use crate::reader::ContributionModel;
use crate::reader::EdgeEndpoint;
use crate::reader::EdgeModel;
use crate::reader::EndpointModel;
use crate::reader::MonorepoConfigReader;
use crate::reader::ReaderContext;
use crate::reader::ReaderError;
use crate::reader::ResolutionView;
use crate::source::ProjectSource;
use crate::source::SourceModel;
use crate::text;

verus! {

/// The `[project]` table of a `mise.toml` file.
#[derive(Debug, Clone)]
pub struct MiseProjectSection {
    pub name: Option<String>,
    pub sources: Vec<String>,
    pub tags: Vec<String>,
    pub depends: Vec<String>,
    pub implicit_dependencies: Vec<String>,
}

/// A directory with a marker file. `sections` holds the `[project]` table of
/// each marker file, in the order of the markers, where there is one.
#[derive(Debug, Clone)]
pub struct MiseDirectory {
    pub dir: String,
    pub sections: Vec<Option<MiseProjectSection>>,
}

/// The first of the given sections that is there.
pub open spec fn first_section(sections: Seq<Option<MiseProjectSection>>) -> Option<
    MiseProjectSection,
>
    decreases sections.len(),
{
    if sections.len() == 0 {
        None
    } else {
        match first_section(sections.drop_last()) {
            Some(section) => Some(section),
            None => sections.last(),
        }
    }
}

/// What a directory contributes.
pub open spec fn mise_project(d: MiseDirectory) -> Seq<ContributionModel> {
    match first_section(d.sections@) {
        Some(section) => seq![
            ContributionModel {
                source: SourceModel::Mise,
                path_root: d.dir@,
                foreign_name: reader::optional_text(section.name),
                sources: text::texts(section.sources@),
                tags: text::texts(section.tags@),
            },
        ],
        None => Seq::empty(),
    }
}

/// What a dependency refers to: an id where it begins with `//`, a project by
/// its name where one is registered, and else a path from the monorepo root.
pub open spec fn mise_target(root: Seq<char>, g: GraphModel, dep: Seq<char>) -> EndpointModel {
    if text::begins_with(dep, "//"@) {
        EndpointModel::Id(dep)
    } else if g.names.contains_key((SourceModel::Mise, dep)) {
        EndpointModel::ForeignName { source: SourceModel::Mise, name: dep }
    } else {
        EndpointModel::Path(path::joined(root, dep))
    }
}

/// The edges of a directory: one for each dependency, and then one for each
/// implicit dependency.
pub open spec fn mise_edges(root: Seq<char>, g: GraphModel, d: MiseDirectory) -> Seq<EdgeModel> {
    match first_section(d.sections@) {
        Some(section) => (text::texts(section.depends@) + text::texts(
            section.implicit_dependencies@,
        )).map_values(
            |dep: Seq<char>|
                EdgeModel { from: EndpointModel::Path(d.dir@), to: mise_target(root, g, dep) },
        ),
        None => Seq::empty(),
    }
}

/// Reads `[project]` tables from `mise.toml` files across the monorepo.
///
/// The `name` field, if there is one, is the name of the project in the `Mise`
/// namespace. `depends` and `implicit_dependencies` become edges in pass 2.
#[derive(Debug, Clone)]
pub struct MiseReader {
    pub found: Vec<MiseDirectory>,
}

impl MiseReader {
    /// The files that declare a project, those that take precedence first.
    pub fn markers() -> (r: [&'static str; 2])
        ensures
            r@.len() == 2,
            r@[0]@ == "mise.toml"@,
            r@[1]@ == ".mise.toml"@,
    {
        ["mise.toml", ".mise.toml"]
    }

    /// The first of the given sections that is there.
    pub fn read_section(sections: &Vec<Option<MiseProjectSection>>) -> (r: Option<
        &MiseProjectSection,
    >)
        ensures
            match r {
                Some(section) => first_section(sections@) == Some(*section),
                None => first_section(sections@) is None,
            },
    {
        let ghost all = sections@;
        let mut i: usize = 0;
        proof {
            assert(all.take(0) =~= Seq::<Option<MiseProjectSection>>::empty());
        }
        while i < sections.len()
            invariant
                all == sections@,
                i <= all.len(),
                first_section(all.take(i as int)) is None,
            decreases all.len() - i,
        {
            proof {
                assert(all.take(i + 1).drop_last() =~= all.take(i as int));
                assert(all.take(i + 1).last() == all[i as int]);
            }
            if let Some(section) = &sections[i] {
                proof {
                    lemma_first_section_stays(all, i + 1);
                }
                return Some(section);
            }
            i += 1;
        }
        proof {
            assert(all.take(i as int) =~= all);
        }
        None
    }

    /// What a dependency refers to.
    fn target(ctx: &ReaderContext, view: &ResolutionView, dep: &String) -> (r: EdgeEndpoint)
        ensures
            r@ == mise_target(ctx@.root, view@, dep@),
    {
        if text::starts_with(dep.as_str(), "//") {
            return EdgeEndpoint::Id(dep.clone());
        }
        let named = EdgeEndpoint::ForeignName { source: ProjectSource::Mise, name: dep.clone() };
        if view.resolve(&named).is_some() {
            named
        } else {
            EdgeEndpoint::Path(path::join(ctx.monorepo_root.as_str(), dep.as_str()))
        }
    }

    /// Emits an edge from `dir` for each of `deps`.
    fn emit(
        ctx: &ReaderContext,
        view: &ResolutionView,
        dir: &String,
        deps: &Vec<String>,
        out: &mut Vec<ContributedEdge>,
    )
        ensures
            reader::edge_models(final(out)@) == reader::edge_models(old(out)@) + text::texts(
                deps@,
            ).map_values(
                |dep: Seq<char>|
                    EdgeModel {
                        from: EndpointModel::Path(dir@),
                        to: mise_target(ctx@.root, view@, dep),
                    },
            ),
    {
        let ghost start = out@;
        let ghost f = |dep: Seq<char>|
            EdgeModel { from: EndpointModel::Path(dir@), to: mise_target(ctx@.root, view@, dep) };
        let mut i: usize = 0;
        while i < deps.len()
            invariant
                f == (|dep: Seq<char>|
                    EdgeModel {
                        from: EndpointModel::Path(dir@),
                        to: mise_target(ctx@.root, view@, dep),
                    }),
                i <= deps@.len(),
                out@.len() == start.len() + i,
                forall|k: int| 0 <= k < start.len() ==> #[trigger] out@[k] == start[k],
                forall|k: int|
                    0 <= k < i ==> (#[trigger] out@[start.len() + k])@ == f(deps@[k]@),
            decreases deps@.len() - i,
        {
            let ghost before = out@;
            let from = EdgeEndpoint::Path(dir.clone());
            let to = Self::target(ctx, view, &deps[i]);
            out.push(ContributedEdge { from, to });
            proof {
                assert forall|k: int| 0 <= k < i + 1 implies (#[trigger] out@[start.len() + k])@
                    == f(deps@[k]@) by {
                    if k < i {
                        assert(out@[start.len() + k] == before[start.len() + k]);
                    }
                }
            }
            i += 1;
        }
        proof {
            let more = text::texts(deps@).map_values(f);
            assert forall|k: int| 0 <= k < out@.len() implies #[trigger] reader::edge_models(
                out@,
            )[k] == (reader::edge_models(start) + more)[k] by {
                if k < start.len() {
                    assert(out@[k] == start[k]);
                } else {
                    let j = k - start.len();
                    assert(out@[start.len() + j]@ == f(deps@[j]@));
                    assert(text::texts(deps@)[j] == deps@[j]@);
                }
            }
            assert(reader::edge_models(out@) =~= reader::edge_models(start) + more);
        }
    }
}

/// A section that is there stays the first one, whatever comes behind it.
proof fn lemma_first_section_stays(sections: Seq<Option<MiseProjectSection>>, n: int)
    requires
        0 <= n <= sections.len(),
        first_section(sections.take(n)) is Some,
    ensures
        first_section(sections) == first_section(sections.take(n)),
    decreases sections.len(),
{
    if n < sections.len() {
        assert(sections.drop_last().take(n) =~= sections.take(n));
        lemma_first_section_stays(sections.drop_last(), n);
    } else {
        assert(sections.take(n) =~= sections);
    }
}

impl MonorepoConfigReader for MiseReader {
    open spec fn names_itself(&self, name: Seq<char>) -> bool {
        name == "mise"@
    }

    open spec fn offers_projects(
        &self,
        ctx: ContextModel,
        answer: Result<Seq<ContributionModel>, ReaderError>,
    ) -> bool {
        answer == Ok::<Seq<ContributionModel>, ReaderError>(
            lists::gathered(self.found@, |d: MiseDirectory| mise_project(d)),
        )
    }

    open spec fn offers_edges(
        &self,
        ctx: ContextModel,
        graph: GraphModel,
        answer: Result<Seq<EdgeModel>, ReaderError>,
    ) -> bool {
        answer == Ok::<Seq<EdgeModel>, ReaderError>(
            lists::gathered(self.found@, |d: MiseDirectory| mise_edges(ctx.root, graph, d)),
        )
    }

    fn id(&self) -> (r: &'static str) {
        "mise"
    }

    fn collect_projects(&self, ctx: &ReaderContext) -> (r: Result<
        Vec<ContributedProject>,
        ReaderError,
    >) {
        let ghost all = self.found@;
        let ghost f = |d: MiseDirectory| mise_project(d);
        let mut out: Vec<ContributedProject> = Vec::new();
        let mut i: usize = 0;
        proof {
            lists::lemma_gathered_ends(all, f);
            assert(reader::contributions(out@) =~= Seq::<ContributionModel>::empty());
        }
        while i < self.found.len()
            invariant
                all == self.found@,
                f == (|d: MiseDirectory| mise_project(d)),
                i <= all.len(),
                reader::contributions(out@) == lists::gathered(all.take(i as int), f),
            decreases all.len() - i,
        {
            let ghost before = out@;
            let directory = &self.found[i];
            proof {
                lists::lemma_gathered_next(all, i as int, f);
            }
            if let Some(section) = Self::read_section(&directory.sections) {
                out.push(
                    ContributedProject {
                        source: ProjectSource::Mise,
                        path_root: directory.dir.clone(),
                        foreign_name: text::clone_optional(&section.name),
                        sources: text::clone_texts(&section.sources),
                        tags: text::clone_texts(&section.tags),
                    },
                );
            }
            proof {
                assert(reader::contributions(out@) =~= reader::contributions(before) + f(
                    *directory,
                ));
            }
            i += 1;
        }
        proof {
            lists::lemma_gathered_ends(all, f);
        }
        Ok(out)
    }

    fn collect_edges(&self, ctx: &ReaderContext, view: &ResolutionView) -> (r: Result<
        Vec<ContributedEdge>,
        ReaderError,
    >) {
        let ghost all = self.found@;
        let ghost root = ctx@.root;
        let ghost g = view@;
        let ghost f = |d: MiseDirectory| mise_edges(root, g, d);
        let mut out: Vec<ContributedEdge> = Vec::new();
        let mut i: usize = 0;
        proof {
            lists::lemma_gathered_ends(all, f);
            assert(reader::edge_models(out@) =~= Seq::<EdgeModel>::empty());
        }
        while i < self.found.len()
            invariant
                all == self.found@,
                root == ctx@.root,
                g == view@,
                f == (|d: MiseDirectory| mise_edges(root, g, d)),
                i <= all.len(),
                reader::edge_models(out@) == lists::gathered(all.take(i as int), f),
            decreases all.len() - i,
        {
            let ghost before = reader::edge_models(out@);
            let directory = &self.found[i];
            proof {
                lists::lemma_gathered_next(all, i as int, f);
            }
            if let Some(section) = Self::read_section(&directory.sections) {
                Self::emit(ctx, view, &directory.dir, &section.depends, &mut out);
                Self::emit(ctx, view, &directory.dir, &section.implicit_dependencies, &mut out);
            }
            proof {
                assert(reader::edge_models(out@) =~= before + f(*directory));
            }
            i += 1;
        }
        proof {
            lists::lemma_gathered_ends(all, f);
        }
        Ok(out)
    }
}

/// The section is the first one of the directory that is there.
pub open spec fn is_section(d: MiseDirectory, section: MiseProjectSection) -> bool {
    exists|k: int|
        {
            &&& 0 <= k < d.sections@.len()
            &&& #[trigger] d.sections@[k] == Some(section)
            &&& forall|m: int| 0 <= m < k ==> (#[trigger] d.sections@[m]) is None
        }
}

/// Some dependency of the section, explicit or implicit, is `dep`.
pub open spec fn is_dependency(section: MiseProjectSection, dep: Seq<char>) -> bool {
    ||| exists|n: int|
        0 <= n < section.depends@.len() && (#[trigger] section.depends@[n])@ == dep
    ||| exists|n: int|
        0 <= n < section.implicit_dependencies@.len() && (
        #[trigger] section.implicit_dependencies@[n])@ == dep
}

/// The first section is the one that comes before the others.
proof fn lemma_is_section(d: MiseDirectory, section: MiseProjectSection)
    ensures
        first_section(d.sections@) == Some(section) <==> is_section(d, section),
{
    lemma_first_section(d.sections@);
    if is_section(d, section) {
        let k = choose|k: int|
            {
                &&& 0 <= k < d.sections@.len()
                &&& #[trigger] d.sections@[k] == Some(section)
                &&& forall|m: int| 0 <= m < k ==> (#[trigger] d.sections@[m]) is None
            };
        match first_section(d.sections@) {
            Some(found) => {
                let l = choose|l: int|
                    {
                        &&& 0 <= l < d.sections@.len()
                        &&& #[trigger] d.sections@[l] == Some(found)
                        &&& forall|m: int| 0 <= m < l ==> (#[trigger] d.sections@[m]) is None
                    };
                assert(k == l);
            },
            None => {
                assert(d.sections@[k] is None);
            },
        }
    }
}

proof fn lemma_first_section(sections: Seq<Option<MiseProjectSection>>)
    ensures
        match first_section(sections) {
            Some(found) => exists|k: int|
                {
                    &&& 0 <= k < sections.len()
                    &&& #[trigger] sections[k] == Some(found)
                    &&& forall|m: int| 0 <= m < k ==> (#[trigger] sections[m]) is None
                },
            None => forall|m: int| 0 <= m < sections.len() ==> (#[trigger] sections[m]) is None,
        },
    decreases sections.len(),
{
    if sections.len() > 0 {
        let rest = sections.drop_last();
        let last = sections.len() - 1;
        lemma_first_section(rest);
        match first_section(rest) {
            Some(found) => {
                let k = choose|k: int|
                    {
                        &&& 0 <= k < rest.len()
                        &&& #[trigger] rest[k] == Some(found)
                        &&& forall|m: int| 0 <= m < k ==> (#[trigger] rest[m]) is None
                    };
                assert(sections[k] == Some(found));
                assert forall|m: int| 0 <= m < k implies (#[trigger] sections[m]) is None by {
                    assert(sections[m] == rest[m]);
                }
            },
            None => {
                assert forall|m: int| 0 <= m < last implies (#[trigger] sections[m]) is None by {
                    assert(sections[m] == rest[m]);
                }
                assert(sections[last] == sections.last());
            },
        }
    }
}

/// Every directory with a section is contributed, as its first section says, and
/// nothing else is.
pub proof fn law_contributes_every_section(
    reader: MiseReader,
    ctx: ContextModel,
    list: Seq<ContributionModel>,
    c: ContributionModel,
)
    requires
        reader.offers_projects(ctx, Ok(list)),
    ensures
        list.contains(c) <==> exists|d: int, section: MiseProjectSection|
            {
                &&& 0 <= d < reader.found@.len()
                &&& #[trigger] is_section(reader.found@[d], section)
                &&& c.path_root == reader.found@[d].dir@
                &&& c.source == SourceModel::Mise
                &&& c.foreign_name == reader::optional_text(section.name)
                &&& c.sources == text::texts(section.sources@)
                &&& c.tags == text::texts(section.tags@)
            },
{
    let x = Ok::<Seq<ContributionModel>, ReaderError>(list);
    assert(x->Ok_0 == list);
    let f = |d: MiseDirectory| mise_project(d);
    lists::lemma_gathered_contains(reader.found@, f, c);
    if list.contains(c) {
        let d = choose|d: int|
            0 <= d < reader.found@.len() && (#[trigger] f(reader.found@[d])).contains(c);
        let own = reader.found@[d];
        assert(mise_project(own).contains(c));
        let section = first_section(own.sections@)->0;
        lemma_is_section(own, section);
        assert(is_section(reader.found@[d], section));
    }
    if exists|d: int, section: MiseProjectSection|
        {
            &&& 0 <= d < reader.found@.len()
            &&& #[trigger] is_section(reader.found@[d], section)
            &&& c.path_root == reader.found@[d].dir@
            &&& c.source == SourceModel::Mise
            &&& c.foreign_name == reader::optional_text(section.name)
            &&& c.sources == text::texts(section.sources@)
            &&& c.tags == text::texts(section.tags@)
        } {
        let (d, section) = choose|d: int, section: MiseProjectSection|
            {
                &&& 0 <= d < reader.found@.len()
                &&& #[trigger] is_section(reader.found@[d], section)
                &&& c.path_root == reader.found@[d].dir@
                &&& c.source == SourceModel::Mise
                &&& c.foreign_name == reader::optional_text(section.name)
                &&& c.sources == text::texts(section.sources@)
                &&& c.tags == text::texts(section.tags@)
            };
        lemma_is_section(reader.found@[d], section);
        assert(f(reader.found@[d])[0] == c);
        assert(f(reader.found@[d]).contains(c));
    }
}

/// What the directories of two lists contribute comes one list after the other.
pub proof fn law_contributions_in_order(
    a: MiseReader,
    b: MiseReader,
    both: MiseReader,
    ctx: ContextModel,
    x: Seq<ContributionModel>,
    y: Seq<ContributionModel>,
    z: Seq<ContributionModel>,
)
    requires
        both.found@ == a.found@ + b.found@,
        a.offers_projects(ctx, Ok(x)),
        b.offers_projects(ctx, Ok(y)),
        both.offers_projects(ctx, Ok(z)),
    ensures
        z == x + y,
{
    let f = |d: MiseDirectory| mise_project(d);
    lists::lemma_gathered_split(a.found@, b.found@, f);
    let p = Ok::<Seq<ContributionModel>, ReaderError>(x);
    let q = Ok::<Seq<ContributionModel>, ReaderError>(y);
    let r = Ok::<Seq<ContributionModel>, ReaderError>(z);
    assert(p->Ok_0 == x && q->Ok_0 == y && r->Ok_0 == z);
}

/// Every dependency of every directory makes an edge from that directory, and
/// nothing else does. It leads to an id where it begins with `//`, to the project
/// of that name where one is registered, and else to a path from the monorepo
/// root.
pub proof fn law_dependencies_make_edges(
    reader: MiseReader,
    ctx: ContextModel,
    g: GraphModel,
    edges: Seq<EdgeModel>,
    e: EdgeModel,
)
    requires
        reader.offers_edges(ctx, g, Ok(edges)),
    ensures
        edges.contains(e) <==> exists|d: int, section: MiseProjectSection, dep: Seq<char>|
            {
                &&& 0 <= d < reader.found@.len()
                &&& #[trigger] is_section(reader.found@[d], section)
                &&& #[trigger] is_dependency(section, dep)
                &&& e.from == EndpointModel::Path(reader.found@[d].dir@)
                &&& if dep.len() >= 2 && dep[0] == '/' && dep[1] == '/' {
                    e.to == EndpointModel::Id(dep)
                } else if g.names.contains_key((SourceModel::Mise, dep)) {
                    e.to == (EndpointModel::ForeignName { source: SourceModel::Mise, name: dep })
                } else {
                    e.to == EndpointModel::Path(path::joined(ctx.root, dep))
                }
            },
{
    let x = Ok::<Seq<EdgeModel>, ReaderError>(edges);
    assert(x->Ok_0 == edges);
    let f = |d: MiseDirectory| mise_edges(ctx.root, g, d);
    lists::lemma_gathered_contains(reader.found@, f, e);
    if edges.contains(e) {
        let d = choose|d: int|
            0 <= d < reader.found@.len() && (#[trigger] f(reader.found@[d])).contains(e);
        let own = reader.found@[d];
        assert(mise_edges(ctx.root, g, own).contains(e));
        let section = first_section(own.sections@)->0;
        lemma_is_section(own, section);
        let all = text::texts(section.depends@) + text::texts(section.implicit_dependencies@);
        let made = mise_edges(ctx.root, g, own);
        let n = choose|n: int| 0 <= n < made.len() && made[n] == e;
        let dep = all[n];
        lemma_dependency(section, dep);
        assert(all.contains(dep));
        lemma_slashes(dep);
        assert(is_section(reader.found@[d], section) && is_dependency(section, dep));
    }
    if exists|d: int, section: MiseProjectSection, dep: Seq<char>|
        {
            &&& 0 <= d < reader.found@.len()
            &&& #[trigger] is_section(reader.found@[d], section)
            &&& #[trigger] is_dependency(section, dep)
            &&& e.from == EndpointModel::Path(reader.found@[d].dir@)
            &&& if dep.len() >= 2 && dep[0] == '/' && dep[1] == '/' {
                e.to == EndpointModel::Id(dep)
            } else if g.names.contains_key((SourceModel::Mise, dep)) {
                e.to == (EndpointModel::ForeignName { source: SourceModel::Mise, name: dep })
            } else {
                e.to == EndpointModel::Path(path::joined(ctx.root, dep))
            }
        } {
        let (d, section, dep) = choose|d: int, section: MiseProjectSection, dep: Seq<char>|
            {
                &&& 0 <= d < reader.found@.len()
                &&& #[trigger] is_section(reader.found@[d], section)
                &&& #[trigger] is_dependency(section, dep)
                &&& e.from == EndpointModel::Path(reader.found@[d].dir@)
                &&& if dep.len() >= 2 && dep[0] == '/' && dep[1] == '/' {
                    e.to == EndpointModel::Id(dep)
                } else if g.names.contains_key((SourceModel::Mise, dep)) {
                    e.to == (EndpointModel::ForeignName { source: SourceModel::Mise, name: dep })
                } else {
                    e.to == EndpointModel::Path(path::joined(ctx.root, dep))
                }
            };
        lemma_is_section(reader.found@[d], section);
        lemma_dependency(section, dep);
        lemma_slashes(dep);
        let all = text::texts(section.depends@) + text::texts(section.implicit_dependencies@);
        let n = choose|n: int| 0 <= n < all.len() && all[n] == dep;
        assert(f(reader.found@[d])[n] == e);
        assert(f(reader.found@[d]).contains(e));
    }
}

/// The text begins with two slashes.
proof fn lemma_slashes(dep: Seq<char>)
    ensures
        text::begins_with(dep, "//"@) <==> dep.len() >= 2 && dep[0] == '/' && dep[1] == '/',
{
    reveal_strlit("//");
    if dep.len() >= 2 {
        assert(dep.take(2)[0] == dep[0] && dep.take(2)[1] == dep[1]);
        if dep[0] == '/' && dep[1] == '/' {
            assert(dep.take(2) =~= "//"@);
        }
    }
}

/// The dependencies of a section are those of both kinds.
proof fn lemma_dependency(section: MiseProjectSection, dep: Seq<char>)
    ensures
        (text::texts(section.depends@) + text::texts(section.implicit_dependencies@)).contains(dep)
            <==> is_dependency(section, dep),
{
    let a = text::texts(section.depends@);
    let b = text::texts(section.implicit_dependencies@);
    if (a + b).contains(dep) {
        let n = choose|n: int| 0 <= n < (a + b).len() && (a + b)[n] == dep;
        if n < a.len() {
            assert(section.depends@[n]@ == dep);
        } else {
            assert(section.implicit_dependencies@[n - a.len()]@ == dep);
        }
    }
    if exists|n: int| 0 <= n < section.depends@.len() && (#[trigger] section.depends@[n])@ == dep {
        let n = choose|n: int|
            0 <= n < section.depends@.len() && (#[trigger] section.depends@[n])@ == dep;
        assert((a + b)[n] == dep);
    }
    if exists|n: int|
        0 <= n < section.implicit_dependencies@.len() && (
        #[trigger] section.implicit_dependencies@[n])@ == dep {
        let n = choose|n: int|
            0 <= n < section.implicit_dependencies@.len() && (
            #[trigger] section.implicit_dependencies@[n])@ == dep;
        assert((a + b)[a.len() + n] == dep);
    }
}

/// The reader always has an answer, and a directory contributes one project at
/// most.
pub proof fn law_answers(
    reader: MiseReader,
    ctx: ContextModel,
    g: GraphModel,
    projects: Result<Seq<ContributionModel>, ReaderError>,
    edges: Result<Seq<EdgeModel>, ReaderError>,
)
    requires
        reader.offers_projects(ctx, projects),
        reader.offers_edges(ctx, g, edges),
    ensures
        projects is Ok,
        (projects->Ok_0).len() <= reader.found@.len(),
        edges is Ok,
{
    let f = |d: MiseDirectory| mise_project(d);
    lists::lemma_gathered_len(reader.found@, f);
}

/// The edges of the directories of two lists come one list after the other.
pub proof fn law_edges_in_order(
    a: MiseReader,
    b: MiseReader,
    both: MiseReader,
    ctx: ContextModel,
    g: GraphModel,
    x: Seq<EdgeModel>,
    y: Seq<EdgeModel>,
    z: Seq<EdgeModel>,
)
    requires
        both.found@ == a.found@ + b.found@,
        a.offers_edges(ctx, g, Ok(x)),
        b.offers_edges(ctx, g, Ok(y)),
        both.offers_edges(ctx, g, Ok(z)),
    ensures
        z == x + y,
{
    let f = |d: MiseDirectory| mise_edges(ctx.root, g, d);
    lists::lemma_gathered_split(a.found@, b.found@, f);
    let p = Ok::<Seq<EdgeModel>, ReaderError>(x);
    let q = Ok::<Seq<EdgeModel>, ReaderError>(y);
    let r = Ok::<Seq<EdgeModel>, ReaderError>(z);
    assert(p->Ok_0 == x && q->Ok_0 == y && r->Ok_0 == z);
}

/// A single directory makes as many edges as it has dependencies, explicit and
/// implicit ones.
pub proof fn law_one_edge_each(
    reader: MiseReader,
    ctx: ContextModel,
    g: GraphModel,
    edges: Seq<EdgeModel>,
    section: MiseProjectSection,
)
    requires
        reader.found@.len() == 1,
        is_section(reader.found@[0], section),
        reader.offers_edges(ctx, g, Ok(edges)),
    ensures
        edges.len() == section.depends@.len() + section.implicit_dependencies@.len(),
{
    let x = Ok::<Seq<EdgeModel>, ReaderError>(edges);
    assert(x->Ok_0 == edges);
    lemma_is_section(reader.found@[0], section);
    let f = |d: MiseDirectory| mise_edges(ctx.root, g, d);
    assert(reader.found@.drop_last() =~= Seq::<MiseDirectory>::empty());
    assert(lists::gathered(reader.found@.drop_last(), f) =~= Seq::<EdgeModel>::empty());
    assert(lists::gathered(reader.found@, f) == lists::gathered(reader.found@.drop_last(), f) + f(
        reader.found@.last(),
    ));
}

} // verus!
