//! What the readers of the configuration formats share.
use vstd::prelude::*;

use crate::lists;
use crate::path;
use crate::path::Component;
use crate::path::Part;
use crate::graph::GraphModel;
use crate::reader::ContextModel;
use crate::reader::ContributedEdge;
use crate::reader::ContributedProject;
use crate::reader::ContributionModel;
use crate::reader::EdgeModel;
use crate::reader::MonorepoConfigReader;
use crate::reader::ReaderContext;
use crate::reader::ReaderError;
use crate::reader::ResolutionView;
use crate::readers::mise_reader::MiseReader;
use crate::readers::npm_reader::NpmReader;
use crate::readers::nx_reader::NxReader;
use crate::readers::pnpm_reader::PnpmReader;
use crate::readers::turbo_reader::TurboReader;
use crate::text;

pub mod mise_reader;
pub mod npm_reader;
pub mod nx_reader;
pub mod pnpm_reader;
pub mod turbo_reader;
pub mod workspace;

verus! {

/// One of the readers of this crate.
#[derive(Debug, Clone)]
pub enum DefaultReader {
    Mise(MiseReader),
    Nx(NxReader),
    Turbo(TurboReader),
    Pnpm(PnpmReader),
    Npm(NpmReader),
}

impl MonorepoConfigReader for DefaultReader {
    open spec fn names_itself(&self, name: Seq<char>) -> bool {
        match self {
            DefaultReader::Mise(reader) => reader.names_itself(name),
            DefaultReader::Nx(reader) => reader.names_itself(name),
            DefaultReader::Turbo(reader) => reader.names_itself(name),
            DefaultReader::Pnpm(reader) => reader.names_itself(name),
            DefaultReader::Npm(reader) => reader.names_itself(name),
        }
    }

    open spec fn offers_projects(
        &self,
        ctx: ContextModel,
        answer: Result<Seq<ContributionModel>, ReaderError>,
    ) -> bool {
        match self {
            DefaultReader::Mise(reader) => reader.offers_projects(ctx, answer),
            DefaultReader::Nx(reader) => reader.offers_projects(ctx, answer),
            DefaultReader::Turbo(reader) => reader.offers_projects(ctx, answer),
            DefaultReader::Pnpm(reader) => reader.offers_projects(ctx, answer),
            DefaultReader::Npm(reader) => reader.offers_projects(ctx, answer),
        }
    }

    open spec fn offers_edges(
        &self,
        ctx: ContextModel,
        graph: GraphModel,
        answer: Result<Seq<EdgeModel>, ReaderError>,
    ) -> bool {
        match self {
            DefaultReader::Mise(reader) => reader.offers_edges(ctx, graph, answer),
            DefaultReader::Nx(reader) => reader.offers_edges(ctx, graph, answer),
            DefaultReader::Turbo(reader) => reader.offers_edges(ctx, graph, answer),
            DefaultReader::Pnpm(reader) => reader.offers_edges(ctx, graph, answer),
            DefaultReader::Npm(reader) => reader.offers_edges(ctx, graph, answer),
        }
    }

    fn id(&self) -> (r: &'static str) {
        match self {
            DefaultReader::Mise(reader) => reader.id(),
            DefaultReader::Nx(reader) => reader.id(),
            DefaultReader::Turbo(reader) => reader.id(),
            DefaultReader::Pnpm(reader) => reader.id(),
            DefaultReader::Npm(reader) => reader.id(),
        }
    }

    fn collect_projects(&self, ctx: &ReaderContext) -> (r: Result<
        Vec<ContributedProject>,
        ReaderError,
    >) {
        match self {
            DefaultReader::Mise(reader) => reader.collect_projects(ctx),
            DefaultReader::Nx(reader) => reader.collect_projects(ctx),
            DefaultReader::Turbo(reader) => reader.collect_projects(ctx),
            DefaultReader::Pnpm(reader) => reader.collect_projects(ctx),
            DefaultReader::Npm(reader) => reader.collect_projects(ctx),
        }
    }

    fn collect_edges(&self, ctx: &ReaderContext, view: &ResolutionView) -> (r: Result<
        Vec<ContributedEdge>,
        ReaderError,
    >) {
        match self {
            DefaultReader::Mise(reader) => reader.collect_edges(ctx, view),
            DefaultReader::Nx(reader) => reader.collect_edges(ctx, view),
            DefaultReader::Turbo(reader) => reader.collect_edges(ctx, view),
            DefaultReader::Pnpm(reader) => reader.collect_edges(ctx, view),
            DefaultReader::Npm(reader) => reader.collect_edges(ctx, view),
        }
    }
}

impl MonorepoConfigReader for Box<dyn MonorepoConfigReader> {
    open spec fn names_itself(&self, name: Seq<char>) -> bool {
        (**self).names_itself(name)
    }

    open spec fn offers_projects(
        &self,
        ctx: ContextModel,
        answer: Result<Seq<ContributionModel>, ReaderError>,
    ) -> bool {
        (**self).offers_projects(ctx, answer)
    }

    open spec fn offers_edges(
        &self,
        ctx: ContextModel,
        graph: GraphModel,
        answer: Result<Seq<EdgeModel>, ReaderError>,
    ) -> bool {
        (**self).offers_edges(ctx, graph, answer)
    }

    fn id(&self) -> (r: &'static str) {
        (**self).id()
    }

    fn collect_projects(&self, ctx: &ReaderContext) -> (r: Result<
        Vec<ContributedProject>,
        ReaderError,
    >) {
        (**self).collect_projects(ctx)
    }

    fn collect_edges(&self, ctx: &ReaderContext, view: &ResolutionView) -> (r: Result<
        Vec<ContributedEdge>,
        ReaderError,
    >) {
        (**self).collect_edges(ctx, view)
    }
}

/// Default depth cap for monorepo walks.
pub const DEFAULT_WALK_DEPTH: usize = 8;

/// Where a walk starts: the configured roots, or the whole monorepo where none
/// are configured.
pub open spec fn starts(ctx: ContextModel) -> Seq<Seq<char>> {
    match ctx.config_roots {
        Some(roots) => if roots.len() > 0 {
            roots
        } else {
            seq![ctx.root]
        },
        None => seq![ctx.root],
    }
}

/// Where a walk starts: the configured roots, or the whole monorepo where none
/// are configured.
pub fn walk_starts(ctx: &ReaderContext) -> (r: Vec<String>)
    ensures
        text::texts(r@) == starts(ctx@),
{
    if let Some(roots) = &ctx.config_roots {
        if roots.len() > 0 {
            return text::clone_texts(roots);
        }
    }
    let mut r: Vec<String> = Vec::new();
    r.push(ctx.monorepo_root.clone());
    proof {
        assert(text::texts(r@) =~= seq![ctx@.root]);
    }
    r
}

/// The texts of several string slices.
pub open spec fn slice_texts(list: Seq<&str>) -> Seq<Seq<char>> {
    list.map_values(|s: &str| s@)
}

/// The directory of `file`, where the name of the file is one of `markers`.
pub open spec fn marker_dir(file: Seq<char>, markers: Seq<Seq<char>>) -> Seq<Seq<char>> {
    match (path::last_name(file), path::without_last(file)) {
        (Some(name), Some(dir)) => if markers.contains(name) {
            seq![dir]
        } else {
            Seq::empty()
        },
        _ => Seq::empty(),
    }
}

/// The directories of the files whose names are markers.
pub open spec fn marker_dirs(files: Seq<Seq<char>>, markers: Seq<Seq<char>>) -> Seq<Seq<char>> {
    lists::gathered(files, |file: Seq<char>| marker_dir(file, markers))
}

/// Whether a string slice is one of `list`.
fn has_slice(list: &[&str], item: &str) -> (r: bool)
    ensures
        r == slice_texts(list@).contains(item@),
{
    let mut i: usize = 0;
    while i < list.len()
        invariant
            i <= list@.len(),
            forall|k: int| 0 <= k < i ==> (#[trigger] slice_texts(list@)[k]) != item@,
        decreases list@.len() - i,
    {
        if text::same_text(list[i], item) {
            proof {
                assert(slice_texts(list@)[i as int] == item@);
            }
            return true;
        }
        i += 1;
    }
    false
}

/// The directories that contain at least one of `markers`, out of the files
/// that a walk came across, in ascending order.
pub fn walk_for_markers(files: &Vec<String>, markers: &[&str]) -> (r: Vec<String>)
    ensures
        path::sorts(
            marker_dirs(text::texts(files@), slice_texts(markers@)),
            text::texts(r@),
        ),
{
    let ghost all = text::texts(files@);
    let ghost names = slice_texts(markers@);
    let ghost f = |file: Seq<char>| marker_dir(file, names);
    let mut hits: Vec<String> = Vec::new();
    let mut i: usize = 0;
    proof {
        lists::lemma_gathered_ends(all, f);
        assert(text::texts(hits@) =~= Seq::<Seq<char>>::empty());
    }
    while i < files.len()
        invariant
            all == text::texts(files@),
            names == slice_texts(markers@),
            f == (|file: Seq<char>| marker_dir(file, names)),
            i <= files@.len(),
            text::texts(hits@) == lists::gathered(all.take(i as int), f),
        decreases files@.len() - i,
    {
        let ghost before = hits@;
        let file = files[i].as_str();
        proof {
            lists::lemma_gathered_next(all, i as int, f);
            assert(all[i as int] == file@);
        }
        if let Some(name) = path::file_name(file) {
            if has_slice(markers, name.as_str()) {
                if let Some(dir) = path::parent(file) {
                    hits.push(dir);
                    proof {
                        assert(text::texts(hits@) =~= text::texts(before) + seq![dir@]);
                    }
                }
            }
        }
        proof {
            assert(text::texts(hits@) =~= text::texts(before) + f(file@));
        }
        i += 1;
    }
    proof {
        lists::lemma_gathered_ends(all, f);
    }
    path::sort_paths(&hits)
}

/// A relative pattern without `..` components: it cannot lead out of the
/// directory that it is seen from.
pub open spec fn safe_pattern(pat: Seq<char>) -> bool {
    pat.len() > 0 && !path::absolute(pat) && !path::parts(pat).contains(Part::Parent)
}

/// Reject globs that escape the monorepo root: absolute paths and patterns
/// containing `..` components.
pub fn is_safe_glob_pattern(pat: &str) -> (r: bool)
    ensures
        r == safe_pattern(pat@),
{
    let all = path::components(pat);
    let ghost f = |c: Component| c.part();
    proof {
        assert(all@.map_values(f) =~= path::parts(pat@));
        if pat@.len() == 0 {
            assert(path::spans(pat@, 0).len() == 0);
        }
    }
    if text::chars_of(pat).len() == 0 || path::is_absolute(pat) {
        return false;
    }
    let mut i: usize = 0;
    while i < all.len()
        invariant
            f == (|c: Component| c.part()),
            all@.map_values(f) == path::parts(pat@),
            i <= all@.len(),
            forall|k: int| 0 <= k < i ==> (#[trigger] path::parts(pat@)[k]) != Part::Parent,
        decreases all@.len() - i,
    {
        proof {
            assert(all@.map_values(f)[i as int] == all@[i as int].part());
        }
        if let Component::ParentDir = &all[i] {
            proof {
                assert(path::parts(pat@)[i as int] == Part::Parent);
            }
            return false;
        }
        i += 1;
    }
    true
}

/// The glob to look for, as seen from the monorepo root. Exclusion patterns
/// and unsafe ones give none.
pub open spec fn accepted_glob(root: Seq<char>, pat: Seq<char>) -> Seq<Seq<char>> {
    if text::begins_with(pat, seq!['!']) || !safe_pattern(pat) {
        Seq::empty()
    } else {
        seq![path::joined(root, pat)]
    }
}

/// The globs to look for, as seen from the monorepo root.
pub open spec fn accepted(root: Seq<char>, patterns: Seq<Seq<char>>) -> Seq<Seq<char>> {
    lists::gathered(patterns, |pat: Seq<char>| accepted_glob(root, pat))
}

/// The workspace globs to look for, as seen from the monorepo root, in the
/// order of their patterns. Exclusion (`!`) patterns are skipped, and unsafe
/// ones rejected.
pub fn accepted_globs(monorepo_root: &str, patterns: &[String]) -> (r: Vec<String>)
    ensures
        text::texts(r@) == accepted(monorepo_root@, text::texts(patterns@)),
{
    let ghost root = monorepo_root@;
    let ghost all = text::texts(patterns@);
    let ghost f = |pat: Seq<char>| accepted_glob(root, pat);
    let mut r: Vec<String> = Vec::new();
    let mut i: usize = 0;
    proof {
        lists::lemma_gathered_ends(all, f);
        assert(text::texts(r@) =~= Seq::<Seq<char>>::empty());
    }
    while i < patterns.len()
        invariant
            root == monorepo_root@,
            all == text::texts(patterns@),
            f == (|pat: Seq<char>| accepted_glob(root, pat)),
            i <= patterns@.len(),
            text::texts(r@) == lists::gathered(all.take(i as int), f),
        decreases patterns@.len() - i,
    {
        let ghost before = r@;
        let pat = patterns[i].as_str();
        proof {
            lists::lemma_gathered_next(all, i as int, f);
            assert(all[i as int] == pat@);
            assert(text::begins_with(pat@, seq!['!']) <==> pat@.len() > 0 && pat@[0] == '!') by {
                if pat@.len() > 0 && pat@[0] == '!' {
                    assert(pat@.subrange(0, 1) =~= seq!['!']);
                }
                if text::begins_with(pat@, seq!['!']) {
                    assert(seq!['!'][0] == '!');
                }
            }
        }
        if !text::starts_with_char(pat, '!') && is_safe_glob_pattern(pat) {
            r.push(path::join(monorepo_root, pat));
        }
        proof {
            assert(text::texts(r@) =~= text::texts(before) + f(pat@));
        }
        i += 1;
    }
    proof {
        lists::lemma_gathered_ends(all, f);
    }
    r
}

/// What a workspace glob came across.
#[derive(Debug, Clone)]
pub struct GlobEntry {
    pub path: String,
    /// The path with its links resolved, or as it is where that fails.
    pub canonical: String,
    pub is_dir: bool,
    /// The entry holds a `package.json` file.
    pub has_package_json: bool,
}

/// The path of an entry that is a workspace member: a directory with a
/// `package.json`, which does not really lie outside the monorepo.
pub open spec fn member_path(canonical_root: Seq<char>, entry: GlobEntry) -> Seq<Seq<char>> {
    if entry.is_dir && entry.has_package_json && path::under(entry.canonical@, canonical_root) {
        seq![entry.path@]
    } else {
        Seq::empty()
    }
}

/// The paths of the entries that are workspace members.
pub open spec fn member_paths(canonical_root: Seq<char>, entries: Seq<GlobEntry>) -> Seq<
    Seq<char>,
> {
    lists::gathered(entries, |entry: GlobEntry| member_path(canonical_root, entry))
}

/// The workspace members among what the accepted globs came across, in
/// ascending order: the directories with a `package.json` that, with links
/// resolved, lie under the monorepo root.
pub fn expand_workspace_globs(canonical_root: &str, entries: &Vec<GlobEntry>) -> (r: Vec<String>)
    ensures
        path::sorts(member_paths(canonical_root@, entries@), text::texts(r@)),
{
    let ghost root = canonical_root@;
    let ghost f = |entry: GlobEntry| member_path(root, entry);
    let mut hits: Vec<String> = Vec::new();
    let mut i: usize = 0;
    proof {
        lists::lemma_gathered_ends(entries@, f);
        assert(text::texts(hits@) =~= Seq::<Seq<char>>::empty());
    }
    while i < entries.len()
        invariant
            root == canonical_root@,
            f == (|entry: GlobEntry| member_path(root, entry)),
            i <= entries@.len(),
            text::texts(hits@) == lists::gathered(entries@.take(i as int), f),
        decreases entries@.len() - i,
    {
        let ghost before = hits@;
        let entry = &entries[i];
        proof {
            lists::lemma_gathered_next(entries@, i as int, f);
        }
        if entry.is_dir && entry.has_package_json && path::is_under(
            entry.canonical.as_str(),
            canonical_root,
        ) {
            hits.push(entry.path.clone());
        }
        proof {
            assert(text::texts(hits@) =~= text::texts(before) + f(*entry));
        }
        i += 1;
    }
    proof {
        lists::lemma_gathered_ends(entries@, f);
    }
    path::sort_paths(&hits)
}

/// A path is in the part of the monorepo that readers are restricted to.
pub open spec fn in_config_roots(ctx: ContextModel, member: Seq<char>) -> bool {
    match ctx.config_roots {
        Some(roots) => roots.len() == 0 || exists|i: int|
            0 <= i < roots.len() && path::under(member, #[trigger] roots[i]),
        None => true,
    }
}

/// Whether a path is in the part of the monorepo that readers are restricted
/// to.
pub fn is_in_config_roots(ctx: &ReaderContext, member: &str) -> (r: bool)
    ensures
        r == in_config_roots(ctx@, member@),
{
    match &ctx.config_roots {
        Some(roots) => {
            let ghost all = text::texts(roots@);
            let mut i: usize = 0;
            while i < roots.len()
                invariant
                    all == text::texts(roots@),
                    ctx@.config_roots == Some(all),
                    i <= roots@.len(),
                    forall|k: int| 0 <= k < i ==> !path::under(member@, #[trigger] all[k]),
                decreases roots@.len() - i,
            {
                proof {
                    assert(all[i as int] == roots@[i as int]@);
                }
                if path::is_under(member, roots[i].as_str()) {
                    return true;
                }
                i += 1;
            }
            roots.len() == 0
        },
        None => true,
    }
}

/// Drop workspace members that don't sit under any of the configured roots.
/// Where none are configured, all members are kept.
pub fn filter_members_by_config_roots(members: Vec<String>, ctx: &ReaderContext) -> (r: Vec<String>)
    ensures
        text::texts(r@) == text::texts(members@).filter(
            |member: Seq<char>| in_config_roots(ctx@, member),
        ),
{
    let ghost all = text::texts(members@);
    let ghost keep = |member: Seq<char>| in_config_roots(ctx@, member);
    let mut r: Vec<String> = Vec::new();
    let mut i: usize = 0;
    proof {
        reveal(Seq::filter);
        assert(all.take(0) =~= Seq::<Seq<char>>::empty());
        assert(text::texts(r@) =~= all.take(0).filter(keep));
    }
    while i < members.len()
        invariant
            all == text::texts(members@),
            keep == (|member: Seq<char>| in_config_roots(ctx@, member)),
            i <= members@.len(),
            text::texts(r@) == all.take(i as int).filter(keep),
        decreases members@.len() - i,
    {
        let ghost before = r@;
        proof {
            reveal(Seq::filter);
            assert(all[i as int] == members@[i as int]@);
            assert(all.take(i + 1).drop_last() =~= all.take(i as int));
            assert(all.take(i + 1).last() == all[i as int]);
        }
        if is_in_config_roots(ctx, members[i].as_str()) {
            let member = members[i].clone();
            r.push(member);
            proof {
                assert(text::texts(r@) =~= text::texts(before).push(member@));
            }
        }
        i += 1;
    }
    proof {
        assert(all.take(i as int) =~= all);
    }
    r
}

/// A safe glob seen from the monorepo root stays there: its components are
/// those of the root, and then none that leads back up.
pub proof fn law_accepted_stays_inside(root: Seq<char>, patterns: Seq<Seq<char>>, glob: Seq<char>)
    requires
        root.len() > 0,
        accepted(root, patterns).contains(glob),
    ensures
        path::under(glob, root),
        forall|k: int|
            path::parts(root).len() <= k < path::parts(glob).len() ==> (#[trigger] path::parts(
                glob,
            )[k]) != Part::Parent,
{
    let f = |pat: Seq<char>| accepted_glob(root, pat);
    lists::lemma_gathered_contains(patterns, f, glob);
    let i = choose|i: int| 0 <= i < patterns.len() && (#[trigger] f(patterns[i])).contains(glob);
    let pat = patterns[i];
    assert(glob == path::joined(root, pat));
    path::lemma_joined(root, pat);
    let all = path::parts(glob);
    let n = path::parts(root).len() as int;
    assert(path::parts(root) =~= all.subrange(0, n));
    assert forall|k: int| n <= k < all.len() implies (#[trigger] all[k]) != Part::Parent by {
        let own = path::parts(pat);
        let at = path::lead(pat).len() + (k - n);
        assert(own[at] == path::body(pat, 0)[k - n]);
        assert(own.contains(own[at]));
    }
}

/// Where no roots are configured, every member is kept.
pub proof fn law_unset_roots_keep_all(ctx: ContextModel, members: Seq<Seq<char>>)
    requires
        ctx.config_roots is None || (ctx.config_roots->0).len() == 0,
    ensures
        members.filter(|member: Seq<char>| in_config_roots(ctx, member)) == members,
    decreases members.len(),
{
    reveal(Seq::filter);
    if members.len() > 0 {
        law_unset_roots_keep_all(ctx, members.drop_last());
        assert(members =~= members.drop_last().push(members.last()));
    }
}

/// Every workspace member is a directory with a `package.json` that a glob came
/// across, and with its links resolved it lies under the monorepo root.
pub proof fn law_members_confined(
    canonical_root: Seq<char>,
    entries: Seq<GlobEntry>,
    members: Seq<Seq<char>>,
    i: int,
)
    requires
        path::sorts(member_paths(canonical_root, entries), members),
        0 <= i < members.len(),
    ensures
        exists|k: int|
            {
                &&& 0 <= k < entries.len()
                &&& (#[trigger] entries[k]).path@ == members[i]
                &&& entries[k].is_dir && entries[k].has_package_json
                &&& path::under(entries[k].canonical@, canonical_root)
            },
{
    let f = |entry: GlobEntry| member_path(canonical_root, entry);
    let found = member_paths(canonical_root, entries);
    path::lemma_sorted_from(found, members, i);
    lists::lemma_gathered_contains(entries, f, members[i]);
    let k = choose|k: int|
        0 <= k < entries.len() && (#[trigger] f(entries[k])).contains(members[i]);
    assert(entries[k].path@ == members[i]);
}

/// Every directory that a walk comes up with holds a marker file, and every
/// marker file has its directory among them.
pub proof fn law_walk_finds_markers(
    files: Seq<Seq<char>>,
    markers: Seq<Seq<char>>,
    dirs: Seq<Seq<char>>,
)
    requires
        path::sorts(marker_dirs(files, markers), dirs),
    ensures
        forall|i: int|
            0 <= i < dirs.len() ==> exists|k: int|
                0 <= k < files.len() && marker_dir(#[trigger] files[k], markers).contains(
                    #[trigger] dirs[i],
                ),
        forall|k: int, dir: Seq<char>|
            0 <= k < files.len() && #[trigger] marker_dir(files[k], markers).contains(dir)
                ==> path::has_parts(dirs, path::parts(dir)),
{
    let f = |file: Seq<char>| marker_dir(file, markers);
    let found = marker_dirs(files, markers);
    assert forall|i: int| 0 <= i < dirs.len() implies exists|k: int|
        0 <= k < files.len() && marker_dir(#[trigger] files[k], markers).contains(
            #[trigger] dirs[i],
        ) by {
        path::lemma_sorted_from(found, dirs, i);
        lists::lemma_gathered_contains(files, f, dirs[i]);
        let k = choose|k: int| 0 <= k < files.len() && (#[trigger] f(files[k])).contains(dirs[i]);
        assert(marker_dir(files[k], markers).contains(dirs[i]));
    }
    assert forall|k: int, dir: Seq<char>|
        0 <= k < files.len() && #[trigger] marker_dir(files[k], markers).contains(
            dir,
        ) implies path::has_parts(dirs, path::parts(dir)) by {
        assert(f(files[k]).contains(dir));
        lists::lemma_gathered_contains(files, f, dir);
        let n = choose|n: int| 0 <= n < found.len() && found[n] == dir;
        assert(path::has_parts(dirs, path::parts(found[n])));
    }
}

/// A member below any of the configured roots is kept, whichever of them it is,
/// and a member below none of them is dropped, where there are any. What is kept
/// was among the members.
pub proof fn law_config_roots(
    ctx: ContextModel,
    roots: Seq<Seq<char>>,
    members: Seq<Seq<char>>,
    member: Seq<char>,
)
    requires
        ctx.config_roots == Some(roots),
        roots.len() > 0,
    ensures
        members.filter(|member: Seq<char>| in_config_roots(ctx, member)).contains(member)
            <==> members.contains(member) && exists|i: int|
            0 <= i < roots.len() && path::parts(#[trigger] roots[i]).is_prefix_of(
                path::parts(member),
            ),
        in_config_roots(ctx, member) <==> exists|i: int|
            0 <= i < roots.len() && path::parts(#[trigger] roots[i]).is_prefix_of(
                path::parts(member),
            ),
{
    let keep = |member: Seq<char>| in_config_roots(ctx, member);
    let kept = members.filter(keep);
    if exists|i: int|
        0 <= i < roots.len() && path::parts(#[trigger] roots[i]).is_prefix_of(
            path::parts(member),
        ) {
        let i = choose|i: int|
            0 <= i < roots.len() && path::parts(#[trigger] roots[i]).is_prefix_of(
                path::parts(member),
            );
        assert(path::under(member, roots[i]));
    }
    if in_config_roots(ctx, member) {
        let i = choose|i: int| 0 <= i < roots.len() && path::under(member, #[trigger] roots[i]);
        assert(path::parts(roots[i]).is_prefix_of(path::parts(member)));
    }
    if kept.contains(member) {
        members.lemma_filter_contains_rev(keep, member);
        let k = choose|k: int| 0 <= k < kept.len() && kept[k] == member;
        members.lemma_filter_pred(keep, k);
    }
    if members.contains(member) && keep(member) {
        let k = choose|k: int| 0 <= k < members.len() && members[k] == member;
        members.lemma_filter_contains(keep, k);
    }
}

/// A walk starts at every configured root, or at the monorepo root where none is
/// configured.
pub proof fn law_walk_starts(ctx: ContextModel, start: Seq<char>)
    ensures
        starts(ctx).contains(start) <==> match ctx.config_roots {
            Some(roots) => if roots.len() > 0 {
                roots.contains(start)
            } else {
                start == ctx.root
            },
            None => start == ctx.root,
        },
        starts(ctx).len() > 0,
{
    assert(seq![ctx.root].contains(ctx.root)) by {
        assert(seq![ctx.root][0] == ctx.root);
    }
    if starts(ctx).contains(start) {
        let i = choose|i: int| 0 <= i < starts(ctx).len() && starts(ctx)[i] == start;
        assert(starts(ctx)[i] == start);
    }
}

/// Some file lies directly in the directory with the given components and has the
/// name of a marker.
pub open spec fn holds_marker(
    files: Seq<Seq<char>>,
    markers: Seq<Seq<char>>,
    dir: Seq<Part>,
) -> bool {
    exists|k: int, name: Seq<char>|
        {
            &&& 0 <= k < files.len()
            &&& #[trigger] markers.contains(name)
            &&& path::parts(#[trigger] files[k]) == dir.push(Part::Normal(name))
        }
}

/// The directory of a file with the name of a marker is found.
proof fn lemma_marker_found(
    files: Seq<Seq<char>>,
    markers: Seq<Seq<char>>,
    dirs: Seq<Seq<char>>,
    k: int,
    name: Seq<char>,
)
    requires
        path::sorts(marker_dirs(files, markers), dirs),
        0 <= k < files.len(),
        markers.contains(name),
        path::parts(files[k]).len() > 0,
        path::parts(files[k]).last() == Part::Normal(name),
    ensures
        exists|i: int|
            0 <= i < dirs.len() && path::parts(#[trigger] dirs[i]) == path::parts(
                files[k],
            ).drop_last(),
{
    law_walk_finds_markers(files, markers, dirs);
    path::law_last_name(files[k], name);
    path::law_parent(files[k]);
    let dir = path::without_last(files[k])->0;
    let found = marker_dir(files[k], markers);
    assert(found[0] == dir);
    assert(found.contains(dir));
    assert(path::has_parts(dirs, path::parts(dir)));
}

/// A directory that is found holds a file with the name of a marker.
proof fn lemma_found_for_marker(
    files: Seq<Seq<char>>,
    markers: Seq<Seq<char>>,
    dirs: Seq<Seq<char>>,
    i: int,
)
    requires
        path::sorts(marker_dirs(files, markers), dirs),
        0 <= i < dirs.len(),
    ensures
        holds_marker(files, markers, path::parts(dirs[i])),
{
    law_walk_finds_markers(files, markers, dirs);
    let k = choose|k: int|
        0 <= k < files.len() && marker_dir(#[trigger] files[k], markers).contains(dirs[i]);
    let name = path::last_name(files[k])->0;
    path::law_last_name(files[k], name);
    path::law_parent(files[k]);
    assert(markers.contains(name));
    assert(path::parts(files[k]) =~= path::parts(dirs[i]).push(Part::Normal(name)));
}

/// The directory of every file with the name of a marker is found, wherever it
/// is, and nothing else is: a directory that is found has the components of such
/// a file but for the last. The directories ascend, and none is found twice.
pub proof fn law_walk_for_markers(
    files: Seq<Seq<char>>,
    markers: Seq<Seq<char>>,
    dirs: Seq<Seq<char>>,
)
    requires
        path::sorts(marker_dirs(files, markers), dirs),
    ensures
        forall|k: int, name: Seq<char>|
            0 <= k < files.len() && #[trigger] markers.contains(name) && path::parts(
                #[trigger] files[k],
            ).len() > 0 && path::parts(files[k]).last() == Part::Normal(name) ==> exists|i: int|
                0 <= i < dirs.len() && path::parts(#[trigger] dirs[i]) == path::parts(
                    files[k],
                ).drop_last(),
        forall|i: int|
            0 <= i < dirs.len() ==> holds_marker(files, markers, path::parts(#[trigger] dirs[i])),
        forall|i: int, j: int|
            0 <= i < j < dirs.len() ==> path::parts_before(
                path::parts(#[trigger] dirs[i]),
                path::parts(#[trigger] dirs[j]),
            ),
{
    assert forall|k: int, name: Seq<char>|
        0 <= k < files.len() && #[trigger] markers.contains(name) && path::parts(
            #[trigger] files[k],
        ).len() > 0 && path::parts(files[k]).last() == Part::Normal(name) implies exists|i: int|
        0 <= i < dirs.len() && path::parts(#[trigger] dirs[i]) == path::parts(
            files[k],
        ).drop_last() by {
        lemma_marker_found(files, markers, dirs, k, name);
    }
    assert forall|i: int| 0 <= i < dirs.len() implies holds_marker(
        files,
        markers,
        path::parts(#[trigger] dirs[i]),
    ) by {
        lemma_found_for_marker(files, markers, dirs, i);
    }
}

/// The globs to look for are the patterns that begin neither with `/` nor with
/// `!`, are not empty, and have no `..` in them, each joined to the monorepo
/// root; every such pattern gives one.
pub proof fn law_accepted_globs(root: Seq<char>, patterns: Seq<Seq<char>>, glob: Seq<char>)
    ensures
        accepted(root, patterns).contains(glob) <==> exists|i: int|
            {
                &&& 0 <= i < patterns.len()
                &&& (#[trigger] patterns[i]).len() > 0
                &&& patterns[i][0] != '/'
                &&& patterns[i][0] != '!'
                &&& !path::parts(patterns[i]).contains(Part::Parent)
                &&& glob == path::joined(root, patterns[i])
            },
{
    let f = |pat: Seq<char>| accepted_glob(root, pat);
    lists::lemma_gathered_contains(patterns, f, glob);
    assert forall|i: int| 0 <= i < patterns.len() implies ((#[trigger] f(patterns[i])).contains(
        glob,
    ) <==> {
        &&& patterns[i].len() > 0
        &&& patterns[i][0] != '/'
        &&& patterns[i][0] != '!'
        &&& !path::parts(patterns[i]).contains(Part::Parent)
        &&& glob == path::joined(root, patterns[i])
    }) by {
        let pat = patterns[i];
        if pat.len() > 0 && pat[0] == '!' {
            assert(pat.take(1) =~= seq!['!']);
        }
        if text::begins_with(pat, seq!['!']) {
            assert(pat.take(1)[0] == '!');
        }
        if !text::begins_with(pat, seq!['!']) && safe_pattern(pat) {
            assert(f(pat)[0] == path::joined(root, pat));
        }
    }
    if exists|i: int|
        {
            &&& 0 <= i < patterns.len()
            &&& (#[trigger] patterns[i]).len() > 0
            &&& patterns[i][0] != '/'
            &&& patterns[i][0] != '!'
            &&& !path::parts(patterns[i]).contains(Part::Parent)
            &&& glob == path::joined(root, patterns[i])
        } {
        let i = choose|i: int|
            {
                &&& 0 <= i < patterns.len()
                &&& (#[trigger] patterns[i]).len() > 0
                &&& patterns[i][0] != '/'
                &&& patterns[i][0] != '!'
                &&& !path::parts(patterns[i]).contains(Part::Parent)
                &&& glob == path::joined(root, patterns[i])
            };
        assert(f(patterns[i]).contains(glob));
    }
    if accepted(root, patterns).contains(glob) {
        let i = choose|i: int| 0 <= i < patterns.len() && (#[trigger] f(patterns[i])).contains(
            glob,
        );
        assert(patterns[i].len() > 0);
    }
}

/// Every directory with a `package.json` that a glob came across is a member,
/// unless with its links resolved it lies outside the monorepo root.
pub proof fn law_members_complete(
    canonical_root: Seq<char>,
    entries: Seq<GlobEntry>,
    members: Seq<Seq<char>>,
    k: int,
)
    requires
        path::sorts(member_paths(canonical_root, entries), members),
        0 <= k < entries.len(),
        entries[k].is_dir,
        entries[k].has_package_json,
        path::parts(canonical_root).is_prefix_of(path::parts(entries[k].canonical@)),
    ensures
        exists|i: int|
            0 <= i < members.len() && path::parts(#[trigger] members[i]) == path::parts(
                entries[k].path@,
            ),
{
    let f = |entry: GlobEntry| member_path(canonical_root, entry);
    let found = member_paths(canonical_root, entries);
    let member = entries[k].path@;
    assert(f(entries[k])[0] == member);
    assert(f(entries[k]).contains(member));
    lists::lemma_gathered_contains(entries, f, member);
    let n = choose|n: int| 0 <= n < found.len() && found[n] == member;
    assert(path::has_parts(members, path::parts(found[n])));
}

/// A reader of this crate contributes what the reader of its format does.
pub proof fn law_default_reader_contributes(
    mise: MiseReader,
    nx: NxReader,
    turbo: TurboReader,
    pnpm: PnpmReader,
    npm: NpmReader,
    ctx: ContextModel,
    answer: Result<Seq<ContributionModel>, ReaderError>,
)
    ensures
        DefaultReader::Mise(mise).offers_projects(ctx, answer) <==> mise.offers_projects(
            ctx,
            answer,
        ),
        DefaultReader::Nx(nx).offers_projects(ctx, answer) <==> nx.offers_projects(ctx, answer),
        DefaultReader::Turbo(turbo).offers_projects(ctx, answer) <==> turbo.offers_projects(
            ctx,
            answer,
        ),
        DefaultReader::Pnpm(pnpm).offers_projects(ctx, answer) <==> pnpm.offers_projects(
            ctx,
            answer,
        ),
        DefaultReader::Npm(npm).offers_projects(ctx, answer) <==> npm.offers_projects(ctx, answer),
{
}

/// A reader of this crate emits the edges that the reader of its format does.
pub proof fn law_default_reader_emits(
    mise: MiseReader,
    nx: NxReader,
    turbo: TurboReader,
    pnpm: PnpmReader,
    npm: NpmReader,
    ctx: ContextModel,
    g: GraphModel,
    answer: Result<Seq<EdgeModel>, ReaderError>,
)
    ensures
        DefaultReader::Mise(mise).offers_edges(ctx, g, answer) <==> mise.offers_edges(
            ctx,
            g,
            answer,
        ),
        DefaultReader::Nx(nx).offers_edges(ctx, g, answer) <==> nx.offers_edges(ctx, g, answer),
        DefaultReader::Turbo(turbo).offers_edges(ctx, g, answer) <==> turbo.offers_edges(
            ctx,
            g,
            answer,
        ),
        DefaultReader::Pnpm(pnpm).offers_edges(ctx, g, answer) <==> pnpm.offers_edges(
            ctx,
            g,
            answer,
        ),
        DefaultReader::Npm(npm).offers_edges(ctx, g, answer) <==> npm.offers_edges(
            ctx,
            g,
            answer,
        ),
{
}

/// The globs of two lists of patterns are those of the one and after them those of
/// the other.
pub proof fn law_accepted_in_order(root: Seq<char>, a: Seq<Seq<char>>, b: Seq<Seq<char>>)
    ensures
        accepted(root, a + b) == accepted(root, a) + accepted(root, b),
{
    lists::lemma_gathered_split(a, b, |pat: Seq<char>| accepted_glob(root, pat));
}

/// A pattern is safe where it is not empty, does not begin with a separator, and
/// none of its components leads back up.
pub proof fn law_safe_pattern(pat: Seq<char>)
    ensures
        safe_pattern(pat) <==> pat.len() > 0 && pat[0] != '/' && forall|k: int|
            0 <= k < path::parts(pat).len() ==> #[trigger] path::parts(pat)[k] != Part::Parent,
{
    if pat.len() > 0 && pat[0] != '/' && forall|k: int|
        0 <= k < path::parts(pat).len() ==> #[trigger] path::parts(pat)[k] != Part::Parent {
        if path::parts(pat).contains(Part::Parent) {
            let k = choose|k: int|
                0 <= k < path::parts(pat).len() && path::parts(pat)[k] == Part::Parent;
            assert(path::parts(pat)[k] == Part::Parent);
        }
    }
}

/// The members of a workspace ascend, and none comes twice.
pub proof fn law_members_ascend(
    canonical_root: Seq<char>,
    entries: Seq<GlobEntry>,
    members: Seq<Seq<char>>,
    i: int,
    j: int,
)
    requires
        path::sorts(member_paths(canonical_root, entries), members),
        0 <= i < j < members.len(),
    ensures
        path::parts_before(path::parts(members[i]), path::parts(members[j])),
{
}

/// A boxed reader answers what the reader in the box does, under its name.
pub proof fn law_boxed_reader(
    reader: Box<dyn MonorepoConfigReader>,
    ctx: ContextModel,
    g: GraphModel,
    name: Seq<char>,
    projects: Result<Seq<ContributionModel>, ReaderError>,
    edges: Result<Seq<EdgeModel>, ReaderError>,
)
    ensures
        reader.names_itself(name) <==> (*reader).names_itself(name),
        reader.offers_projects(ctx, projects) <==> (*reader).offers_projects(ctx, projects),
        reader.offers_edges(ctx, g, edges) <==> (*reader).offers_edges(ctx, g, edges),
{
}

} // verus!
