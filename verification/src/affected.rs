//! The projects that are affected by a change.
use vstd::prelude::*;

use crate::changed::GlobProblem;
use crate::changed::SourceGlobError;
use crate::lists;
use crate::ordered;
use crate::ordered::OrderedSet;
use crate::path;
use crate::project::ProjectId;
use crate::reader;
use crate::text;

verus! {

/// A ref that begins with `-` would be read as a flag by git.
pub open spec fn flag_like(value: Seq<char>) -> bool {
    value.len() > 0 && value[0] == '-'
}

/// Why the affected projects cannot be listed.
#[derive(Debug)]
pub enum AffectedError {
    /// The value of a flag would be read as a flag by git.
    FlagLike { flag: String, value: String },
    /// There is no monorepo.
    NoMonorepo,
    /// Neither of the default base refs exists.
    NoDefaultBase,
    /// The monorepo is not a git repository.
    NotARepository { root: String },
    /// The head ref does not exist.
    NoHead { root: String, head: String },
    /// The base ref does not exist.
    NoBase { root: String, base: String },
    /// The two refs have no common ancestor.
    NoCommonAncestor { base: String, head: String },
    /// The changed files could not be found out.
    NoChanges { base: String, head: String, cause: String },
    /// The source globs of a project are unusable.
    Globs(SourceGlobError),
    /// The tasks could not be loaded.
    NoTasks { cause: String },
    /// An event came that was not asked for.
    OutOfTurn,
}

/// What an `AffectedError` stands for.
pub enum ErrorModel {
    FlagLike { flag: Seq<char>, value: Seq<char> },
    NoMonorepo,
    NoDefaultBase,
    NotARepository { root: Seq<char> },
    NoHead { root: Seq<char>, head: Seq<char> },
    NoBase { root: Seq<char>, base: Seq<char> },
    NoCommonAncestor { base: Seq<char>, head: Seq<char> },
    NoChanges { base: Seq<char>, head: Seq<char>, cause: Seq<char> },
    Globs(GlobProblem),
    NoTasks { cause: Seq<char> },
    OutOfTurn,
}

impl View for AffectedError {
    type V = ErrorModel;

    open spec fn view(&self) -> ErrorModel {
        match self {
            AffectedError::FlagLike { flag, value } => ErrorModel::FlagLike {
                flag: flag@,
                value: value@,
            },
            AffectedError::NoMonorepo => ErrorModel::NoMonorepo,
            AffectedError::NoDefaultBase => ErrorModel::NoDefaultBase,
            AffectedError::NotARepository { root } => ErrorModel::NotARepository { root: root@ },
            AffectedError::NoHead { root, head } => ErrorModel::NoHead {
                root: root@,
                head: head@,
            },
            AffectedError::NoBase { root, base } => ErrorModel::NoBase {
                root: root@,
                base: base@,
            },
            AffectedError::NoCommonAncestor { base, head } => ErrorModel::NoCommonAncestor {
                base: base@,
                head: head@,
            },
            AffectedError::NoChanges { base, head, cause } => ErrorModel::NoChanges {
                base: base@,
                head: head@,
                cause: cause@,
            },
            AffectedError::Globs(e) => ErrorModel::Globs(e.problem()),
            AffectedError::NoTasks { cause } => ErrorModel::NoTasks { cause: cause@ },
            AffectedError::OutOfTurn => ErrorModel::OutOfTurn,
        }
    }
}

/// Reject ref strings that begin with `-`, so that the value of a flag cannot
/// pass as a flag of git. No ref that git accepts begins so.
pub fn validate_ref(value: Option<&str>, flag: &str) -> (r: Result<(), AffectedError>)
    ensures
        match r {
            Ok(_) => match value {
                Some(value) => !flag_like(value@),
                None => true,
            },
            Err(e) => match value {
                Some(value) => flag_like(value@) && e@ == (ErrorModel::FlagLike {
                    flag: flag@,
                    value: value@,
                }),
                None => false,
            },
        },
{
    if let Some(value) = value {
        if text::starts_with_char(value, '-') {
            return Err(
                AffectedError::FlagLike { flag: flag.to_owned(), value: value.to_owned() },
            );
        }
    }
    Ok(())
}

/// The default base ref, where there is one.
pub open spec fn default_ref(is_repo: bool, has_main: bool, has_master: bool) -> Option<Seq<char>> {
    if !is_repo || has_main {
        Some("main"@)
    } else if has_master {
        Some("master"@)
    } else {
        None
    }
}

/// Default base ref: `main` outside a repository; else `main` or `master`,
/// whichever of them exists first.
pub fn default_base(is_repo: bool, has_main: bool, has_master: bool) -> (r: Result<
    &'static str,
    AffectedError,
>)
    ensures
        match r {
            Ok(base) => default_ref(is_repo, has_main, has_master) == Some(base@),
            Err(e) => default_ref(is_repo, has_main, has_master) is None && e@
                == ErrorModel::NoDefaultBase,
        },
{
    if !is_repo || has_main {
        Ok("main")
    } else if has_master {
        Ok("master")
    } else {
        Err(AffectedError::NoDefaultBase)
    }
}

/// The project and the task of a name `//path/to/project:task`.
pub open spec fn split_task(name: Seq<char>) -> Option<(Seq<char>, Seq<char>)> {
    let colon = text::position_of(name, ':', 2);
    if text::begins_with(name, seq!['/', '/']) && colon < name.len() {
        Some((name.take(colon), name.skip(colon + 1)))
    } else {
        None
    }
}

/// Split a monorepo-prefixed task name `//path/to/project:task` into the id of
/// the project and the name of the task. Other names give `None`.
pub fn split_monorepo_task_name(name: &str) -> (r: Option<(ProjectId, String)>)
    ensures
        match r {
            Some((project, task)) => split_task(name@) == Some((project@, task@)),
            None => split_task(name@) is None,
        },
{
    proof {
        reveal_strlit("//");
        assert("//"@ =~= seq!['/', '/']);
    }
    if !text::starts_with(name, "//") {
        return None;
    }
    let chars = text::chars_of(name);
    let colon: usize = text::find_char(&chars, ':', 2);
    if colon >= chars.len() {
        return None;
    }
    let project = text::slice_text(name, 0, colon);
    let task = text::slice_text(name, colon + 1, chars.len());
    proof {
        assert(project@ =~= name@.take(colon as int));
        assert(task@ =~= name@.skip(colon + 1));
    }
    Some((project, task))
}

/// The name of a task of a project.
pub open spec fn task_name(id: Seq<char>, task: Seq<char>) -> Seq<char> {
    id + seq![':'] + task
}

/// Splitting the name of a task gives back the project and the task, where the
/// project has an id without colons.
pub proof fn law_split_task_name(id: Seq<char>, task: Seq<char>)
    requires
        text::begins_with(id, seq!['/', '/']),
        !id.contains(':'),
    ensures
        split_task(task_name(id, task)) == Some((id, task)),
{
    let name = task_name(id, task);
    let n = id.len() as int;
    text::lemma_position_of(name, ':', 2);
    let colon = text::position_of(name, ':', 2);
    assert(name[n] == ':');
    if colon < n {
        assert(id[colon] == ':');
        assert(id.contains(id[colon]));
    }
    assert(colon == n);
    assert(name.take(2) =~= id.take(2));
    assert(name.take(n) =~= id);
    assert(name.skip(n + 1) =~= task);
}

/// A name that is split is the name of the task of the project.
pub proof fn law_split_gives_name(name: Seq<char>)
    requires
        split_task(name) is Some,
    ensures
        ({
            let (id, task) = split_task(name)->0;
            name == task_name(id, task) && text::begins_with(id, seq!['/', '/'])
        }),
{
    text::lemma_position_of(name, ':', 2);
    let colon = text::position_of(name, ':', 2);
    let id = name.take(colon);
    let task = name.skip(colon + 1);
    assert(name[colon] == ':');
    assert(name =~= task_name(id, task));
    assert(id.take(2) =~= name.take(2));
}

/// The absolute forms of the given paths, seen from the current directory.
pub fn absolute_files(current_dir: &str, files: &Vec<String>) -> (r: Vec<String>)
    ensures
        text::texts(r@) == text::texts(files@).map_values(
            |file: Seq<char>| path::joined(current_dir@, file),
        ),
{
    let mut r: Vec<String> = Vec::new();
    let mut i: usize = 0;
    while i < files.len()
        invariant
            i <= files@.len(),
            r@.len() == i,
            forall|k: int|
                0 <= k < i ==> (#[trigger] r@[k])@ == path::joined(current_dir@, files@[k]@),
        decreases files@.len() - i,
    {
        r.push(path::join(current_dir, files[i].as_str()));
        i += 1;
    }
    proof {
        assert(text::texts(r@) =~= text::texts(files@).map_values(
            |file: Seq<char>| path::joined(current_dir@, file),
        ));
    }
    r
}

/// The path of a file from the monorepo root, where it lies there.
pub open spec fn path_from(root: Seq<char>, file: Seq<char>) -> Seq<Seq<char>> {
    match path::relative(file, root) {
        Some(rel) => seq![rel],
        None => Seq::empty(),
    }
}

/// The paths of the files from the monorepo root. Those outside are dropped.
pub open spec fn paths_from(root: Seq<char>, files: Seq<Seq<char>>) -> Seq<Seq<char>> {
    lists::gathered(files, |file: Seq<char>| path_from(root, file))
}

/// The paths of the given files from the monorepo root, as the project graph
/// expects them. The root and the files have their links resolved, so that a
/// link on the way to either makes no difference. Files outside the monorepo
/// are dropped.
pub fn resolve_user_files(canonical_root: &str, files: &Vec<String>) -> (r: Vec<String>)
    ensures
        text::texts(r@) == paths_from(canonical_root@, text::texts(files@)),
{
    let ghost root = canonical_root@;
    let ghost all = text::texts(files@);
    let ghost f = |file: Seq<char>| path_from(root, file);
    let mut r: Vec<String> = Vec::new();
    let mut i: usize = 0;
    proof {
        lists::lemma_gathered_ends(all, f);
        assert(text::texts(r@) =~= Seq::<Seq<char>>::empty());
    }
    while i < files.len()
        invariant
            root == canonical_root@,
            all == text::texts(files@),
            f == (|file: Seq<char>| path_from(root, file)),
            i <= files@.len(),
            text::texts(r@) == lists::gathered(all.take(i as int), f),
        decreases files@.len() - i,
    {
        let ghost before = r@;
        proof {
            lists::lemma_gathered_next(all, i as int, f);
            assert(all[i as int] == files@[i as int]@);
        }
        if let Some(rel) = path::strip_prefix(files[i].as_str(), canonical_root) {
            r.push(rel);
        }
        proof {
            assert(text::texts(r@) =~= text::texts(before) + f(all[i as int]));
        }
        i += 1;
    }
    proof {
        lists::lemma_gathered_ends(all, f);
    }
    r
}

/// The projects that have one of the given tasks.
pub open spec fn keepers(tasks: Seq<Seq<char>>) -> Set<Seq<char>> {
    Set::new(
        |id: Seq<char>|
            exists|i: int|
                0 <= i < tasks.len() && (#[trigger] split_task(tasks[i])) is Some && (split_task(
                    tasks[i],
                )->0).0 == id,
    )
}

/// The projects that have one of the given tasks.
pub fn projects_of_tasks(tasks: &Vec<String>) -> (r: OrderedSet<ProjectId>)
    ensures
        r@ == keepers(text::texts(tasks@)),
{
    let ghost all = text::texts(tasks@);
    let mut r: OrderedSet<ProjectId> = OrderedSet::new();
    let mut i: usize = 0;
    proof {
        assert(r@ =~= keepers(all.take(0)));
    }
    while i < tasks.len()
        invariant
            all == text::texts(tasks@),
            i <= tasks@.len(),
            r@ == keepers(all.take(i as int)),
        decreases tasks@.len() - i,
    {
        let ghost before = r@;
        let ghost some = all.take(i as int);
        let ghost more = all.take(i + 1);
        proof {
            assert(all[i as int] == tasks@[i as int]@);
            assert(more[i as int] == all[i as int]);
            assert forall|id: Seq<char>| #[trigger] keepers(more).contains(id) <==> keepers(
                some,
            ).contains(id) || (split_task(all[i as int]) is Some && (split_task(
                all[i as int],
            )->0).0 == id) by {
                if keepers(some).contains(id) {
                    let k = choose|k: int|
                        0 <= k < some.len() && (#[trigger] split_task(some[k])) is Some && (
                        split_task(some[k])->0).0 == id;
                    assert(more[k] == some[k]);
                    assert(split_task(more[k]) is Some);
                }
                if split_task(all[i as int]) is Some && (split_task(all[i as int])->0).0 == id {
                    assert(split_task(more[i as int]) is Some);
                }
                if keepers(more).contains(id) {
                    let k = choose|k: int|
                        0 <= k < more.len() && (#[trigger] split_task(more[k])) is Some && (
                        split_task(more[k])->0).0 == id;
                    if k < i {
                        assert(some[k] == more[k]);
                        assert(split_task(some[k]) is Some);
                    }
                }
            }
        }
        if let Some((project, _)) = split_monorepo_task_name(tasks[i].as_str()) {
            r.insert(project);
        }
        proof {
            assert(r@ =~= keepers(more));
        }
        i += 1;
    }
    proof {
        assert(all.take(i as int) =~= all);
    }
    r
}

/// How the affected projects are listed.
#[derive(Debug, Clone, Copy)]
pub enum AffectedFormat {
    Ids,
    Json,
    Tasks,
}

/// What is asked of the affected projects.
#[derive(Debug)]
pub struct Affected {
    /// Return every project, whatever changed.
    pub all: bool,
    /// Base ref to diff against.
    pub base: Option<String>,
    /// Leave these project ids out of the result.
    pub exclude: Vec<String>,
    /// The changed files, in place of those that git finds.
    pub files: Vec<String>,
    pub format: AffectedFormat,
    /// Head ref to diff.
    pub head: Option<String>,
    /// Only list the projects that have a task of this name.
    pub target: Option<String>,
}

/// Schema marker of the report.
pub const AFFECTED_REPORT_SCHEMA: &'static str = "mise-affected-experimental";

/// The affected projects as a report for other programs.
#[derive(Debug)]
pub struct AffectedReport {
    pub schema: &'static str,
    pub version: u32,
    pub base: String,
    pub head: String,
    pub projects: Vec<String>,
    /// The names of the tasks, `//path:task`. `None` where no task was asked
    /// for.
    pub target_tasks: Option<Vec<String>>,
}

/// What is put out at the end.
#[derive(Debug)]
pub enum Output {
    /// Lines of text.
    Lines(Vec<String>),
    /// A report.
    Report(AffectedReport),
}

/// What an `Output` stands for.
pub enum OutputModel {
    Lines(Seq<Seq<char>>),
    Report {
        schema: Seq<char>,
        version: int,
        base: Seq<char>,
        head: Seq<char>,
        projects: Seq<Seq<char>>,
        target_tasks: Option<Seq<Seq<char>>>,
    },
}

impl View for Output {
    type V = OutputModel;

    open spec fn view(&self) -> OutputModel {
        match self {
            Output::Lines(lines) => OutputModel::Lines(text::texts(lines@)),
            Output::Report(report) => OutputModel::Report {
                schema: report.schema@,
                version: report.version as int,
                base: report.base@,
                head: report.head@,
                projects: text::texts(report.projects@),
                target_tasks: match report.target_tasks {
                    Some(tasks) => Some(text::texts(tasks@)),
                    None => None,
                },
            },
        }
    }
}

/// The names of a task in several projects.
pub open spec fn task_names(ids: Seq<Seq<char>>, task: Seq<char>) -> Seq<Seq<char>> {
    ids.map_values(|id: Seq<char>| task_name(id, task))
}

/// What is put out for the given projects.
pub open spec fn shaped(
    format: AffectedFormat,
    target: Option<Seq<char>>,
    projects: Set<Seq<char>>,
    base: Seq<char>,
    head: Seq<char>,
) -> OutputModel {
    let ids = text::ascending(projects);
    match format {
        AffectedFormat::Ids => OutputModel::Lines(ids),
        AffectedFormat::Tasks => OutputModel::Lines(
            match target {
                Some(task) => task_names(ids, task),
                None => ids,
            },
        ),
        AffectedFormat::Json => OutputModel::Report {
            schema: AFFECTED_REPORT_SCHEMA@,
            version: 1,
            base,
            head,
            projects: ids,
            target_tasks: match target {
                Some(task) => Some(task_names(ids, task)),
                None => None,
            },
        },
    }
}

/// The names of a task in several projects.
fn name_tasks(ids: &Vec<String>, task: &str) -> (r: Vec<String>)
    ensures
        text::texts(r@) == task_names(text::texts(ids@), task@),
{
    let mut r: Vec<String> = Vec::new();
    let mut i: usize = 0;
    proof {
        reveal_strlit(":");
        assert(":"@ =~= seq![':']);
    }
    while i < ids.len()
        invariant
            ":"@ == seq![':'],
            i <= ids@.len(),
            r@.len() == i,
            forall|k: int| 0 <= k < i ==> (#[trigger] r@[k])@ == task_name(ids@[k]@, task@),
        decreases ids@.len() - i,
    {
        let start = text::join_text(ids[i].as_str(), ":");
        r.push(text::join_text(start.as_str(), task));
        i += 1;
    }
    proof {
        assert(text::texts(r@) =~= task_names(text::texts(ids@), task@));
    }
    r
}

/// What is put out for the given projects: their ids in ascending order, the
/// names of their tasks, or a report of both.
pub fn output(
    format: AffectedFormat,
    target: &Option<String>,
    projects: OrderedSet<ProjectId>,
    base: &str,
    head: &str,
) -> (r: Output)
    ensures
        r@ == shaped(format, reader::optional_text(*target), projects@, base@, head@),
{
    let ids = projects.into_items();
    proof {
        ordered::lemma_item_order(ids@);
    }
    match format {
        AffectedFormat::Ids => Output::Lines(ids),
        AffectedFormat::Tasks => match target {
            Some(task) => Output::Lines(name_tasks(&ids, task.as_str())),
            None => Output::Lines(ids),
        },
        AffectedFormat::Json => {
            let target_tasks = match target {
                Some(task) => Some(name_tasks(&ids, task.as_str())),
                None => None,
            };
            Output::Report(
                AffectedReport {
                    schema: AFFECTED_REPORT_SCHEMA,
                    version: 1,
                    base: base.to_owned(),
                    head: head.to_owned(),
                    projects: ids,
                    target_tasks,
                },
            )
        },
    }
}

/// A name is not split where it does not begin with two slashes or has no colon,
/// and only there.
pub proof fn law_split_is_total(name: Seq<char>)
    ensures
        split_task(name) is Some <==> name.len() >= 2 && name[0] == '/' && name[1] == '/'
            && name.contains(':'),
{
    let colon = text::position_of(name, ':', 2);
    if name.len() >= 2 {
        text::lemma_position_of(name, ':', 2);
        assert(name.take(2)[0] == name[0] && name.take(2)[1] == name[1]);
        if name[0] == '/' && name[1] == '/' {
            assert(name.take(2) =~= seq!['/', '/']);
            if name.contains(':') {
                let k = choose|k: int| 0 <= k < name.len() && name[k] == ':';
                assert(k >= 2);
            }
        }
    }
    if split_task(name) is Some {
        assert(name[colon] == ':');
    }
}

/// A project has one of the given tasks where some task of it is given, whatever
/// the task is called; its id is what stands before the first colon of a name that
/// begins with two slashes.
pub proof fn law_keepers(tasks: Seq<Seq<char>>, id: Seq<char>)
    ensures
        keepers(tasks).contains(id) <==> {
            &&& id.len() >= 2
            &&& id[0] == '/'
            &&& id[1] == '/'
            &&& !id.contains(':')
            &&& exists|i: int|
                {
                    &&& 0 <= i < tasks.len()
                    &&& id.len() < (#[trigger] tasks[i]).len()
                    &&& tasks[i].take(id.len() as int) == id
                    &&& tasks[i][id.len() as int] == ':'
                }
        },
{
    if keepers(tasks).contains(id) {
        let i = choose|i: int|
            0 <= i < tasks.len() && (#[trigger] split_task(tasks[i])) is Some && (split_task(
                tasks[i],
            )->0).0 == id;
        let name = tasks[i];
        text::lemma_position_of(name, ':', 2);
        let colon = text::position_of(name, ':', 2);
        assert(id == name.take(colon));
        assert(name.take(2)[0] == name[0] && name.take(2)[1] == name[1]);
        if id.contains(':') {
            let k = choose|k: int| 0 <= k < id.len() && id[k] == ':';
            assert(name[k] == ':');
        }
    }
    if {
        &&& id.len() >= 2
        &&& id[0] == '/'
        &&& id[1] == '/'
        &&& !id.contains(':')
        &&& exists|i: int|
            {
                &&& 0 <= i < tasks.len()
                &&& id.len() < (#[trigger] tasks[i]).len()
                &&& tasks[i].take(id.len() as int) == id
                &&& tasks[i][id.len() as int] == ':'
            }
    } {
        let i = choose|i: int|
            {
                &&& 0 <= i < tasks.len()
                &&& id.len() < (#[trigger] tasks[i]).len()
                &&& tasks[i].take(id.len() as int) == id
                &&& tasks[i][id.len() as int] == ':'
            };
        let task = tasks[i].skip(id.len() as int + 1);
        assert(tasks[i] =~= task_name(id, task));
        assert(id.take(2) =~= seq!['/', '/']);
        law_split_task_name(id, task);
        assert(split_task(tasks[i]) is Some);
    }
}

/// A project with a task among the given ones has one of them: the name of the
/// task may hold anything, colons too.
pub proof fn law_task_keeps_its_project(tasks: Seq<Seq<char>>, rest: Seq<char>, task: Seq<char>)
    requires
        !rest.contains(':'),
        tasks.contains(seq!['/', '/'] + rest + seq![':'] + task),
    ensures
        keepers(tasks).contains(seq!['/', '/'] + rest),
{
    let id = seq!['/', '/'] + rest;
    let name = seq!['/', '/'] + rest + seq![':'] + task;
    let i = choose|i: int| 0 <= i < tasks.len() && tasks[i] == name;
    if id.contains(':') {
        let k = choose|k: int| 0 <= k < id.len() && id[k] == ':';
        assert(rest[k - 2] == ':');
    }
    assert(tasks[i].take(id.len() as int) =~= id);
    law_keepers(tasks, id);
}

/// A ref would be read as a flag where it is a dash with anything after it, and
/// only there.
pub proof fn law_flag_like(value: Seq<char>)
    ensures
        flag_like(value) <==> exists|rest: Seq<char>| value == #[trigger] (seq!['-'] + rest),
{
    if flag_like(value) {
        assert(value =~= seq!['-'] + value.skip(1));
    }
}

/// Outside a repository the base is `main`. In one it is `main` where that exists,
/// else `master` where that exists, and else there is none.
pub proof fn law_default_ref(has_main: bool, has_master: bool)
    ensures
        default_ref(false, has_main, has_master) == Some(seq!['m', 'a', 'i', 'n']),
        default_ref(true, true, has_master) == Some(seq!['m', 'a', 'i', 'n']),
        default_ref(true, false, true) == Some(seq!['m', 'a', 's', 't', 'e', 'r']),
        default_ref(true, false, false) is None,
{
    reveal_strlit("main");
    reveal_strlit("master");
    assert("main"@ =~= seq!['m', 'a', 'i', 'n']);
    assert("master"@ =~= seq!['m', 'a', 's', 't', 'e', 'r']);
}

/// Every file below the monorepo root is looked at, by the components of its path
/// below the root, and no other path is.
pub proof fn law_paths_from(root: Seq<char>, files: Seq<Seq<char>>)
    ensures
        forall|i: int|
            0 <= i < files.len() && path::parts(root).is_prefix_of(
                path::parts(#[trigger] files[i]),
            ) ==> exists|k: int|
                0 <= k < paths_from(root, files).len() && path::parts(root) + path::parts(
                    #[trigger] paths_from(root, files)[k],
                ) == path::parts(files[i]),
        forall|k: int|
            0 <= k < paths_from(root, files).len() ==> exists|i: int|
                0 <= i < files.len() && path::parts(root) + path::parts(
                    #[trigger] paths_from(root, files)[k],
                ) == path::parts(#[trigger] files[i]),
{
    let f = |file: Seq<char>| path_from(root, file);
    let paths = paths_from(root, files);
    assert forall|i: int|
        0 <= i < files.len() && path::parts(root).is_prefix_of(
            path::parts(#[trigger] files[i]),
        ) implies exists|k: int|
        0 <= k < paths.len() && path::parts(root) + path::parts(#[trigger] paths[k])
            == path::parts(files[i]) by {
        path::law_relative(files[i], root);
        path::law_relative_parts(files[i], root);
        let rel = path::relative(files[i], root)->0;
        assert(f(files[i])[0] == rel);
        assert(f(files[i]).contains(rel));
        lists::lemma_gathered_contains(files, f, rel);
        let k = choose|k: int| 0 <= k < paths.len() && paths[k] == rel;
        assert(path::parts(root) + path::parts(paths[k]) == path::parts(files[i]));
    }
    assert forall|k: int| 0 <= k < paths.len() implies exists|i: int|
        0 <= i < files.len() && path::parts(root) + path::parts(#[trigger] paths[k])
            == path::parts(#[trigger] files[i]) by {
        lists::lemma_gathered_contains(files, f, paths[k]);
        assert(paths.contains(paths[k]));
        let i = choose|i: int| 0 <= i < files.len() && (#[trigger] f(files[i])).contains(paths[k]);
        path::law_relative_parts(files[i], root);
        assert(path::parts(root) + path::parts(paths[k]) == path::parts(files[i]));
    }
}

/// The paths of two lists of files are those of the one and after them those of
/// the other.
pub proof fn law_paths_in_order(root: Seq<char>, a: Seq<Seq<char>>, b: Seq<Seq<char>>)
    ensures
        paths_from(root, a + b) == paths_from(root, a) + paths_from(root, b),
{
    lists::lemma_gathered_split(a, b, |file: Seq<char>| path_from(root, file));
}

/// Whatever is put out lists every project once, in ascending order, and no other.
/// Lines are the ids, or the names of the task in each of the projects; a report
/// has both, with the refs and the marker of its schema.
pub proof fn law_output_lists_the_projects(
    format: AffectedFormat,
    target: Option<Seq<char>>,
    projects: Set<Seq<char>>,
    base: Seq<char>,
    head: Seq<char>,
    ids: Seq<Seq<char>>,
)
    requires
        ids.to_set() == projects,
        forall|i: int, j: int|
            0 <= i < j < ids.len() ==> text::text_before(#[trigger] ids[i], #[trigger] ids[j]),
    ensures
        match format {
            AffectedFormat::Ids => shaped(format, target, projects, base, head)
                == OutputModel::Lines(ids),
            AffectedFormat::Tasks => {
                let lines = shaped(format, target, projects, base, head)->Lines_0;
                &&& shaped(format, target, projects, base, head) is Lines
                &&& lines.len() == ids.len()
                &&& forall|i: int|
                    0 <= i < ids.len() ==> #[trigger] lines[i] == match target {
                        Some(task) => ids[i] + seq![':'] + task,
                        None => ids[i],
                    }
            },
            AffectedFormat::Json => {
                let report = shaped(format, target, projects, base, head);
                &&& report is Report
                &&& report->schema == AFFECTED_REPORT_SCHEMA@
                &&& report->version == 1
                &&& report->base == base
                &&& report->head == head
                &&& report->projects == ids
                &&& report->target_tasks is Some <==> target is Some
                &&& report->target_tasks is Some ==> {
                    &&& (report->target_tasks->0).len() == ids.len()
                    &&& forall|i: int|
                        0 <= i < ids.len() ==> #[trigger] (report->target_tasks->0)[i] == ids[i]
                            + seq![':'] + target->0
                }
            },
        },
{
    text::lemma_ascending(ids);
}

} // verus!
