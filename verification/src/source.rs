//! The configuration formats that contribute projects.
use vstd::prelude::*;

use crate::ordered::CopiedKey;
use crate::ordered::OrderedKey;
use crate::ordered::OrderedMap;
use crate::text;

verus! {

/// Source format that contributed a project to the graph.
///
/// Most formats refer to projects by name rather than by path, so references
/// across formats are resolved by a source together with a name.
#[derive(Debug, PartialEq, Eq, PartialOrd, Ord, Hash)]
#[non_exhaustive]
pub enum ProjectSource {
    Mise,
    Nx,
    Turbo,
    PnpmWorkspace,
    NpmWorkspace,
    Plugin(String),
}

/// What a `ProjectSource` stands for.
pub enum SourceModel {
    Mise,
    Nx,
    Turbo,
    PnpmWorkspace,
    NpmWorkspace,
    Plugin(Seq<char>),
}

impl View for ProjectSource {
    type V = SourceModel;

    open spec fn view(&self) -> SourceModel {
        match self {
            ProjectSource::Mise => SourceModel::Mise,
            ProjectSource::Nx => SourceModel::Nx,
            ProjectSource::Turbo => SourceModel::Turbo,
            ProjectSource::PnpmWorkspace => SourceModel::PnpmWorkspace,
            ProjectSource::NpmWorkspace => SourceModel::NpmWorkspace,
            ProjectSource::Plugin(name) => SourceModel::Plugin(name@),
        }
    }
}

impl SourceModel {
    /// The place of the variant in the order of sources.
    pub open spec fn rank(self) -> int {
        match self {
            SourceModel::Mise => 0,
            SourceModel::Nx => 1,
            SourceModel::Turbo => 2,
            SourceModel::PnpmWorkspace => 3,
            SourceModel::NpmWorkspace => 4,
            SourceModel::Plugin(_) => 5,
        }
    }

    /// Sources are ordered by variant, plugins by their names.
    pub open spec fn precedes(self, other: SourceModel) -> bool {
        match (self, other) {
            (SourceModel::Plugin(a), SourceModel::Plugin(b)) => text::text_before(a, b),
            _ => self.rank() < other.rank(),
        }
    }

    /// The kebab-case identifier of the source.
    pub open spec fn label(self) -> Seq<char> {
        match self {
            SourceModel::Mise => "mise"@,
            SourceModel::Nx => "nx"@,
            SourceModel::Turbo => "turbo"@,
            SourceModel::PnpmWorkspace => "pnpm-workspace"@,
            SourceModel::NpmWorkspace => "npm-workspace"@,
            SourceModel::Plugin(name) => "plugin:"@ + name,
        }
    }
}

proof fn lemma_source_order(a: SourceModel, b: SourceModel, c: SourceModel)
    ensures
        !a.precedes(a),
        a.precedes(b) && b.precedes(c) ==> a.precedes(c),
        a == b || a.precedes(b) || b.precedes(a),
{
    if let SourceModel::Plugin(x) = a {
        text::lemma_text_irreflexive(x);
        if let SourceModel::Plugin(y) = b {
            text::lemma_text_total(x, y);
            if let SourceModel::Plugin(z) = c {
                if text::text_before(x, y) && text::text_before(y, z) {
                    text::lemma_text_transitive(x, y, z);
                }
            }
        }
    }
}

/// Different sources have different identifiers.
pub proof fn law_labels_distinct(a: SourceModel, b: SourceModel)
    ensures
        a.label() == b.label() ==> a == b,
{
    reveal_strlit("mise");
    reveal_strlit("nx");
    reveal_strlit("turbo");
    reveal_strlit("pnpm-workspace");
    reveal_strlit("npm-workspace");
    reveal_strlit("plugin:");
    if a.label() == b.label() {
        let x = a.label();
        let y = b.label();
        assert(x.len() == y.len());
        assert(x[0] == y[0]);
        assert(x[1] == y[1]);
        if let SourceModel::Plugin(p) = a {
            assert(x.len() >= 7);
            assert(x[1] == 'l');
            if let SourceModel::Plugin(q) = b {
                assert(p =~= x.skip(7));
                assert(q =~= y.skip(7));
            }
        }
        if let SourceModel::Plugin(q) = b {
            assert(y[1] == 'l');
        }
    }
}

impl Clone for ProjectSource {
    fn clone(&self) -> (r: Self)
        ensures
            r == *self,
    {
        match self {
            ProjectSource::Mise => ProjectSource::Mise,
            ProjectSource::Nx => ProjectSource::Nx,
            ProjectSource::Turbo => ProjectSource::Turbo,
            ProjectSource::PnpmWorkspace => ProjectSource::PnpmWorkspace,
            ProjectSource::NpmWorkspace => ProjectSource::NpmWorkspace,
            ProjectSource::Plugin(name) => ProjectSource::Plugin(name.clone()),
        }
    }
}

impl ProjectSource {
    /// The kebab-case identifier of the source.
    pub fn to_string(&self) -> (r: String)
        ensures
            r@ == self@.label(),
    {
        match self {
            ProjectSource::Mise => "mise".to_owned(),
            ProjectSource::Nx => "nx".to_owned(),
            ProjectSource::Turbo => "turbo".to_owned(),
            ProjectSource::PnpmWorkspace => "pnpm-workspace".to_owned(),
            ProjectSource::NpmWorkspace => "npm-workspace".to_owned(),
            ProjectSource::Plugin(name) => text::join_text("plugin:", name.as_str()),
        }
    }

    /// Whether two sources are the same.
    pub fn same(&self, other: &ProjectSource) -> (r: bool)
        ensures
            r == (self@ == other@),
    {
        match (self, other) {
            (ProjectSource::Plugin(a), ProjectSource::Plugin(b)) => text::same_text(
                a.as_str(),
                b.as_str(),
            ),
            _ => self.place() == other.place() && self.place() < 5,
        }
    }

    /// The place of the variant in the order of sources.
    fn place(&self) -> (r: u8)
        ensures
            r == self@.rank(),
    {
        match self {
            ProjectSource::Mise => 0,
            ProjectSource::Nx => 1,
            ProjectSource::Turbo => 2,
            ProjectSource::PnpmWorkspace => 3,
            ProjectSource::NpmWorkspace => 4,
            ProjectSource::Plugin(_) => 5,
        }
    }
}

impl OrderedKey for ProjectSource {
    type Model = SourceModel;

    open spec fn model(&self) -> SourceModel {
        self@
    }

    open spec fn before(a: SourceModel, b: SourceModel) -> bool {
        a.precedes(b)
    }

    proof fn irreflexive(a: SourceModel) {
        lemma_source_order(a, a, a);
    }

    proof fn transitive(a: SourceModel, b: SourceModel, c: SourceModel) {
        lemma_source_order(a, b, c);
    }

    proof fn total(a: SourceModel, b: SourceModel) {
        lemma_source_order(a, b, a);
    }

    fn is_before(&self, other: &Self) -> (r: bool) {
        match (self, other) {
            (ProjectSource::Plugin(a), ProjectSource::Plugin(b)) => text::text_is_before(
                a.as_str(),
                b.as_str(),
            ),
            _ => self.place() < other.place(),
        }
    }
}

impl CopiedKey for ProjectSource {
    fn copied(&self) -> (r: Self) {
        self.clone()
    }
}

/// A name in the namespace of a source.
#[derive(Debug)]
pub struct NameKey {
    pub source: ProjectSource,
    pub name: String,
}

impl OrderedKey for NameKey {
    type Model = (SourceModel, Seq<char>);

    open spec fn model(&self) -> (SourceModel, Seq<char>) {
        (self.source@, self.name@)
    }

    open spec fn before(a: (SourceModel, Seq<char>), b: (SourceModel, Seq<char>)) -> bool {
        a.0.precedes(b.0) || (a.0 == b.0 && text::text_before(a.1, b.1))
    }

    proof fn irreflexive(a: (SourceModel, Seq<char>)) {
        lemma_source_order(a.0, a.0, a.0);
        text::lemma_text_irreflexive(a.1);
    }

    proof fn transitive(
        a: (SourceModel, Seq<char>),
        b: (SourceModel, Seq<char>),
        c: (SourceModel, Seq<char>),
    ) {
        lemma_source_order(a.0, b.0, c.0);
        if text::text_before(a.1, b.1) && text::text_before(b.1, c.1) {
            text::lemma_text_transitive(a.1, b.1, c.1);
        }
    }

    proof fn total(a: (SourceModel, Seq<char>), b: (SourceModel, Seq<char>)) {
        lemma_source_order(a.0, b.0, a.0);
        text::lemma_text_total(a.1, b.1);
    }

    fn is_before(&self, other: &Self) -> (r: bool) {
        if self.source.is_before(&other.source) {
            true
        } else if self.source.same(&other.source) {
            text::text_is_before(self.name.as_str(), other.name.as_str())
        } else {
            false
        }
    }
}

impl CopiedKey for NameKey {
    fn copied(&self) -> (r: Self) {
        NameKey { source: self.source.clone(), name: self.name.clone() }
    }
}

/// A name in the namespace of a source that two projects claim: `id` is the one
/// that came second, and the name does not lead to it.
#[derive(Debug, PartialEq, Eq)]
pub struct NameCollision {
    pub source: ProjectSource,
    pub name: String,
    pub id: String,
}

impl OrderedKey for NameCollision {
    type Model = (SourceModel, Seq<char>, Seq<char>);

    open spec fn model(&self) -> (SourceModel, Seq<char>, Seq<char>) {
        (self.source@, self.name@, self.id@)
    }

    open spec fn before(
        a: (SourceModel, Seq<char>, Seq<char>),
        b: (SourceModel, Seq<char>, Seq<char>),
    ) -> bool {
        NameKey::before((a.0, a.1), (b.0, b.1)) || (a.0 == b.0 && a.1 == b.1 && text::text_before(
            a.2,
            b.2,
        ))
    }

    proof fn irreflexive(a: (SourceModel, Seq<char>, Seq<char>)) {
        NameKey::irreflexive((a.0, a.1));
        text::lemma_text_irreflexive(a.2);
    }

    proof fn transitive(
        a: (SourceModel, Seq<char>, Seq<char>),
        b: (SourceModel, Seq<char>, Seq<char>),
        c: (SourceModel, Seq<char>, Seq<char>),
    ) {
        if NameKey::before((a.0, a.1), (b.0, b.1)) && NameKey::before((b.0, b.1), (c.0, c.1)) {
            NameKey::transitive((a.0, a.1), (b.0, b.1), (c.0, c.1));
        }
        if text::text_before(a.2, b.2) && text::text_before(b.2, c.2) {
            text::lemma_text_transitive(a.2, b.2, c.2);
        }
    }

    proof fn total(
        a: (SourceModel, Seq<char>, Seq<char>),
        b: (SourceModel, Seq<char>, Seq<char>),
    ) {
        NameKey::total((a.0, a.1), (b.0, b.1));
        text::lemma_text_total(a.2, b.2);
    }

    fn is_before(&self, other: &Self) -> (r: bool) {
        if self.source.is_before(&other.source) {
            true
        } else if !self.source.same(&other.source) {
            false
        } else if text::text_is_before(self.name.as_str(), other.name.as_str()) {
            true
        } else if !text::same_text(self.name.as_str(), other.name.as_str()) {
            false
        } else {
            text::text_is_before(self.id.as_str(), other.id.as_str())
        }
    }
}

impl CopiedKey for NameCollision {
    fn copied(&self) -> (r: Self) {
        NameCollision {
            source: self.source.clone(),
            name: self.name.clone(),
            id: self.id.clone(),
        }
    }
}

/// The names that a project has in the namespaces of sources.
pub type SourceNames = OrderedMap<ProjectSource, String>;

/// The texts of the values of a map.
pub open spec fn text_values<K>(m: Map<K, String>) -> Map<K, Seq<char>> {
    m.map_values(|s: String| s@)
}

/// A plugin is identified by its name behind `plugin:`.
pub proof fn law_plugin_label(name: Seq<char>)
    ensures
        SourceModel::Plugin(name).label() == seq!['p', 'l', 'u', 'g', 'i', 'n', ':'] + name,
{
    reveal_strlit("plugin:");
    assert("plugin:"@ =~= seq!['p', 'l', 'u', 'g', 'i', 'n', ':']);
}

/// Sources are ordered as they are listed, plugins behind all others and by their
/// names.
pub proof fn law_source_order(p: Seq<char>, q: Seq<char>)
    ensures
        SourceModel::Mise.precedes(SourceModel::Nx),
        SourceModel::Nx.precedes(SourceModel::Turbo),
        SourceModel::Turbo.precedes(SourceModel::PnpmWorkspace),
        SourceModel::PnpmWorkspace.precedes(SourceModel::NpmWorkspace),
        SourceModel::NpmWorkspace.precedes(SourceModel::Plugin(p)),
        SourceModel::Plugin(p).precedes(SourceModel::Plugin(q)) <==> text::text_before(p, q),
{
}

/// Of two different sources one comes before the other, and not the other way
/// round; a source that comes before a second one comes before those behind it.
pub proof fn law_source_order_total(a: SourceModel, b: SourceModel, c: SourceModel)
    ensures
        !a.precedes(a),
        a != b ==> (a.precedes(b) <==> !b.precedes(a)),
        a.precedes(b) && b.precedes(c) ==> a.precedes(c),
{
    lemma_source_order(a, b, c);
    lemma_source_order(a, b, a);
}

/// Collisions are ordered by their sources, then by their names, and then by the
/// projects that lost them.
pub proof fn law_collision_order(a: NameCollision, b: NameCollision)
    ensures
        NameCollision::before(a.model(), b.model()) <==> a.source@.precedes(b.source@) || (
        a.source@ == b.source@ && (text::text_before(a.name@, b.name@) || (a.name@ == b.name@
            && text::text_before(a.id@, b.id@)))),
{
}

} // verus!
