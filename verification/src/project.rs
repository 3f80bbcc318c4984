//! Projects and their identifiers.
use vstd::prelude::*;

use crate::ordered::OrderedMap;
use crate::ordered::OrderedSet;
use crate::path;
use crate::source;
use crate::source::ProjectSource;
use crate::source::SourceModel;
use crate::source::SourceNames;
use crate::text;

verus! {

/// Canonical identifier for a project: `//` and the path of the project from
/// the monorepo root, with forward slashes.
pub type ProjectId = String;

/// A single project node in the monorepo graph.
///
/// `id` is derived from the path (`//apps/web`). `foreign_names` holds the
/// names that other formats use for the project.
#[derive(Debug)]
#[non_exhaustive]
pub struct Project {
    pub id: ProjectId,
    pub root: String,
    pub source: ProjectSource,
    pub sources: Vec<String>,
    pub tags: OrderedSet<String>,
    pub foreign_names: SourceNames,
}

/// What a `Project` stands for.
pub struct ProjectModel {
    pub id: Seq<char>,
    pub root: Seq<char>,
    pub source: SourceModel,
    pub sources: Seq<Seq<char>>,
    pub tags: Set<Seq<char>>,
    pub foreign_names: Map<SourceModel, Seq<char>>,
}

impl View for Project {
    type V = ProjectModel;

    open spec fn view(&self) -> ProjectModel {
        ProjectModel {
            id: self.id@,
            root: self.root@,
            source: self.source@,
            sources: text::texts(self.sources@),
            tags: self.tags@,
            foreign_names: source::text_values(self.foreign_names@),
        }
    }
}

/// `list` with the texts of `more` behind it, leaving out those that it holds
/// by then.
pub open spec fn with_missing(list: Seq<Seq<char>>, more: Seq<Seq<char>>) -> Seq<Seq<char>>
    decreases more.len(),
{
    if more.len() == 0 {
        list
    } else {
        let start = with_missing(list, more.drop_last());
        if start.contains(more.last()) {
            start
        } else {
            start.push(more.last())
        }
    }
}

impl ProjectModel {
    /// A project with nothing but its identity.
    pub open spec fn bare(id: Seq<char>, root: Seq<char>, source: SourceModel) -> ProjectModel {
        ProjectModel {
            id,
            root,
            source,
            sources: Seq::<Seq<char>>::empty(),
            tags: Set::<Seq<char>>::empty(),
            foreign_names: Map::<SourceModel, Seq<char>>::empty(),
        }
    }

    /// The project with what another contribution of the same project adds:
    /// names for sources that had none, tags, and source globs. Identity,
    /// root, and source stay.
    pub open spec fn merged(self, more: ProjectModel) -> ProjectModel {
        ProjectModel {
            sources: with_missing(self.sources, more.sources),
            tags: self.tags.union(more.tags),
            foreign_names: more.foreign_names.union_prefer_right(self.foreign_names),
            ..self
        }
    }
}

impl Project {
    /// A project with no source globs, tags, or names.
    pub fn new(id: ProjectId, root: String, source: ProjectSource) -> (r: Self)
        ensures
            r@ == ProjectModel::bare(id@, root@, source@),
    {
        let r = Project {
            id,
            root,
            source,
            sources: Vec::new(),
            tags: OrderedSet::new(),
            foreign_names: OrderedMap::new(),
        };
        proof {
            assert(r@.sources =~= Seq::<Seq<char>>::empty());
            assert(r@.foreign_names =~= Map::<SourceModel, Seq<char>>::empty());
        }
        r
    }
}

impl Clone for Project {
    fn clone(&self) -> (r: Self)
        ensures
            r@ == self@,
    {
        Project {
            id: self.id.clone(),
            root: self.root.clone(),
            source: self.source.clone(),
            sources: text::clone_texts(&self.sources),
            tags: self.tags.clone(),
            foreign_names: self.foreign_names.clone(),
        }
    }
}

/// `s` without the separators that it begins with.
pub open spec fn without_leading_slashes(s: Seq<char>) -> Seq<char>
    decreases s.len(),
{
    if s.len() > 0 && s[0] == '/' {
        without_leading_slashes(s.drop_first())
    } else {
        s
    }
}

/// The identifier of the project at `project_root`: `//` and its path from the
/// monorepo root, or its whole path where it lies outside.
pub open spec fn id_of_path(monorepo_root: Seq<char>, project_root: Seq<char>) -> Seq<char> {
    let rel = match path::relative(project_root, monorepo_root) {
        Some(rel) => rel,
        None => project_root,
    };
    let name = without_leading_slashes(rel);
    if name.len() == 0 || name == seq!['.'] {
        seq!['/', '/']
    } else {
        seq!['/', '/'] + name
    }
}

/// Compute the canonical project id (`//rel/path`) from a project root and the
/// monorepo root.
pub fn project_id_from_path(monorepo_root: &str, project_root: &str) -> (r: ProjectId)
    ensures
        r@ == id_of_path(monorepo_root@, project_root@),
{
    let rel: String = match path::strip_prefix(project_root, monorepo_root) {
        Some(rel) => rel,
        None => project_root.to_owned(),
    };
    let chars = text::chars_of(rel.as_str());
    let mut from: usize = 0;
    proof {
        assert(rel@.skip(0) =~= rel@);
    }
    while from < chars.len() && chars[from] == '/'
        invariant
            chars@ == rel@,
            from <= chars@.len(),
            without_leading_slashes(rel@) == without_leading_slashes(rel@.skip(from as int)),
        decreases chars@.len() - from,
    {
        proof {
            assert(rel@.skip(from as int)[0] == '/');
            assert(rel@.skip(from as int).drop_first() =~= rel@.skip(from + 1));
        }
        from += 1;
    }
    let ghost name = rel@.skip(from as int);
    proof {
        if from < chars@.len() {
            assert(name[0] == chars@[from as int]);
        }
        assert(without_leading_slashes(rel@) == name);
        reveal_strlit("//");
        assert("//"@ =~= seq!['/', '/']);
    }
    if from == chars.len() || (from + 1 == chars.len() && chars[from] == '.') {
        proof {
            if from < chars@.len() {
                assert(name =~= seq!['.']);
            }
        }
        "//".to_owned()
    } else {
        proof {
            if name == seq!['.'] {
                assert(name.len() == 1 && name[0] == '.');
            }
            assert(rel@.subrange(from as int, rel@.len() as int) =~= name);
        }
        let rest = text::slice_text(rel.as_str(), from, chars.len());
        text::join_text("//", rest.as_str())
    }
}

/// A project is what its fields say, each of them.
pub proof fn law_project(p: Project, i: int, s: SourceModel)
    ensures
        p@.id == p.id@,
        p@.root == p.root@,
        p@.source == p.source@,
        p@.sources.len() == p.sources@.len(),
        0 <= i < p.sources@.len() ==> p@.sources[i] == p.sources@[i]@,
        p@.tags == p.tags@,
        p@.foreign_names.contains_key(s) <==> p.foreign_names@.contains_key(s),
        p.foreign_names@.contains_key(s) ==> p@.foreign_names[s] == p.foreign_names@[s]@,
{
}

/// A new project has its id, its root and its source, and neither source globs nor
/// tags nor names.
pub proof fn law_new_project(
    id: Seq<char>,
    root: Seq<char>,
    source: SourceModel,
    t: Seq<char>,
    s: SourceModel,
)
    ensures
        ProjectModel::bare(id, root, source).id == id,
        ProjectModel::bare(id, root, source).root == root,
        ProjectModel::bare(id, root, source).source == source,
        ProjectModel::bare(id, root, source).sources.len() == 0,
        !ProjectModel::bare(id, root, source).tags.contains(t),
        !ProjectModel::bare(id, root, source).foreign_names.contains_key(s),
{
}

} // verus!
