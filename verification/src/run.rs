//! The course of listing the affected projects.
//!
//! What has to be asked of the environment (the graph, git, the tasks) is given
//! out as an `Action`, and the answer comes back as an `Event`.
use vstd::prelude::*;

use crate::affected;
use crate::affected::Affected;
use crate::affected::AffectedError;
use crate::affected::AffectedFormat;
use crate::affected::AffectedReport;
use crate::affected::ErrorModel;
use crate::affected::Output;
use crate::affected::OutputModel;
use crate::changed;
use crate::graph::GraphModel;
use crate::graph::ProjectGraph;
use crate::ordered::OrderedSet;
use crate::project::ProjectId;
use crate::reader;
use crate::text;

verus! {

/// What was asked last.
#[derive(Debug, Clone, Copy)]
pub enum Stage {
    /// Nothing was asked yet.
    Start,
    /// The project graph.
    Graph,
    /// The environment variable with the base ref.
    Variable,
    /// Whether there is a repository that has a default base ref.
    DefaultRepository,
    /// Whether the ref `main` exists.
    DefaultMain,
    /// Whether the ref `master` exists.
    DefaultMaster,
    /// The given files, as seen from the monorepo root.
    Files,
    /// Whether the monorepo is a repository.
    Repository,
    /// Whether the head ref exists.
    Head,
    /// Whether the base ref exists.
    Base,
    /// Whether the two refs have a common ancestor.
    Ancestor,
    /// The files that changed between the two refs.
    Changes,
    /// The tasks that match the target.
    Tasks,
    /// Everything that was needed.
    Done,
}

/// An answer to what was asked last.
#[derive(Debug)]
pub enum Event {
    /// The run is to begin.
    Begin,
    /// The project graph, where there is a monorepo.
    Graph(Option<ProjectGraph>),
    /// The environment variable with the base ref, where it is set.
    Variable(Option<String>),
    /// Whether the monorepo is a repository.
    Repository(bool),
    /// Whether a ref exists.
    Ref(bool),
    /// Whether two refs have a common ancestor.
    Ancestor(bool),
    /// Files, as seen from the monorepo root.
    Files(Vec<String>),
    /// The changed files could not be found out.
    ChangesFailed(String),
    /// The names of the tasks that match the target.
    Tasks(Vec<String>),
    /// The tasks could not be loaded.
    TasksFailed(String),
}

/// What is to be done next.
#[derive(Debug)]
pub enum Action {
    /// Load the project graph.
    LoadGraph,
    /// Read the environment variable with the base ref.
    ReadBaseVariable,
    /// Find out whether the monorepo is a repository.
    AskRepository,
    /// Find out whether a ref exists.
    VerifyRef(String),
    /// Find out whether two refs have a common ancestor.
    FindAncestor { base: String, head: String },
    /// Find out which files changed between two refs.
    DiffFiles { base: String, head: String },
    /// Find out how the given files are seen from the monorepo root.
    ResolveFiles(Vec<String>),
    /// Find out which tasks match the target.
    LoadTasks(String),
    /// Put this out; the run is over.
    Finish(Output),
    /// Report this; the run is over.
    Fail(AffectedError),
}

/// What an `Affected` stands for.
pub struct ArgsModel {
    pub all: bool,
    pub base: Option<Seq<char>>,
    pub exclude: Seq<Seq<char>>,
    pub files: Seq<Seq<char>>,
    pub format: AffectedFormat,
    pub head: Option<Seq<char>>,
    pub target: Option<Seq<char>>,
}

impl ArgsModel {
    /// The changed files come from git.
    pub open spec fn diffs(self) -> bool {
        !self.all && self.files.len() == 0
    }

    /// The head ref: the given one, or `HEAD`.
    pub open spec fn head_ref(self) -> Seq<char> {
        match self.head {
            Some(head) => head,
            None => "HEAD"@,
        }
    }
}

impl View for Affected {
    type V = ArgsModel;

    open spec fn view(&self) -> ArgsModel {
        ArgsModel {
            all: self.all,
            base: reader::optional_text(self.base),
            exclude: text::texts(self.exclude@),
            files: text::texts(self.files@),
            format: self.format,
            head: reader::optional_text(self.head),
            target: reader::optional_text(self.target),
        }
    }
}

/// What an `Event` stands for.
pub enum EventModel {
    Begin,
    Graph(Option<GraphModel>),
    Variable(Option<Seq<char>>),
    Repository(bool),
    Ref(bool),
    Ancestor(bool),
    Files(Seq<Seq<char>>),
    ChangesFailed(Seq<char>),
    Tasks(Seq<Seq<char>>),
    TasksFailed(Seq<char>),
}

impl View for Event {
    type V = EventModel;

    open spec fn view(&self) -> EventModel {
        match self {
            Event::Begin => EventModel::Begin,
            Event::Graph(graph) => EventModel::Graph(
                match graph {
                    Some(graph) => Some(graph@),
                    None => None,
                },
            ),
            Event::Variable(value) => EventModel::Variable(reader::optional_text(*value)),
            Event::Repository(is) => EventModel::Repository(*is),
            Event::Ref(is) => EventModel::Ref(*is),
            Event::Ancestor(is) => EventModel::Ancestor(*is),
            Event::Files(files) => EventModel::Files(text::texts(files@)),
            Event::ChangesFailed(cause) => EventModel::ChangesFailed(cause@),
            Event::Tasks(tasks) => EventModel::Tasks(text::texts(tasks@)),
            Event::TasksFailed(cause) => EventModel::TasksFailed(cause@),
        }
    }
}

impl Event {
    /// The graph of the event, if it brings one, is well formed.
    pub open spec fn wf(&self) -> bool {
        match self {
            Event::Graph(Some(graph)) => graph.wf(),
            _ => true,
        }
    }
}

/// What an `Action` stands for.
pub enum ActionModel {
    LoadGraph,
    ReadBaseVariable,
    AskRepository,
    VerifyRef(Seq<char>),
    FindAncestor { base: Seq<char>, head: Seq<char> },
    DiffFiles { base: Seq<char>, head: Seq<char> },
    ResolveFiles(Seq<Seq<char>>),
    LoadTasks(Seq<char>),
    Finish(OutputModel),
    Fail(ErrorModel),
}

impl View for Action {
    type V = ActionModel;

    open spec fn view(&self) -> ActionModel {
        match self {
            Action::LoadGraph => ActionModel::LoadGraph,
            Action::ReadBaseVariable => ActionModel::ReadBaseVariable,
            Action::AskRepository => ActionModel::AskRepository,
            Action::VerifyRef(name) => ActionModel::VerifyRef(name@),
            Action::FindAncestor { base, head } => ActionModel::FindAncestor {
                base: base@,
                head: head@,
            },
            Action::DiffFiles { base, head } => ActionModel::DiffFiles {
                base: base@,
                head: head@,
            },
            Action::ResolveFiles(files) => ActionModel::ResolveFiles(text::texts(files@)),
            Action::LoadTasks(target) => ActionModel::LoadTasks(target@),
            Action::Finish(output) => ActionModel::Finish(output@),
            Action::Fail(e) => ActionModel::Fail(e@),
        }
    }
}

/// Where a run stands.
pub struct RunModel {
    pub args: ArgsModel,
    pub stage: Stage,
    pub graph: GraphModel,
    pub base: Seq<char>,
    pub head: Seq<char>,
    pub projects: Set<Seq<char>>,
}

/// The value of a flag is there and would be read as a flag by git.
pub open spec fn given_flag_like(value: Option<Seq<char>>) -> bool {
    match value {
        Some(value) => affected::flag_like(value),
        None => false,
    }
}

impl RunModel {
    /// A run that has not begun.
    pub open spec fn start(args: ArgsModel) -> RunModel {
        RunModel {
            args,
            stage: Stage::Start,
            graph: GraphModel::empty(Seq::<char>::empty()),
            base: Seq::<char>::empty(),
            head: Seq::<char>::empty(),
            projects: Set::<Seq<char>>::empty(),
        }
    }

    /// The run goes on to ask for something.
    pub open spec fn ask(self, stage: Stage, action: ActionModel) -> (RunModel, ActionModel) {
        (RunModel { stage, ..self }, action)
    }

    /// The run ends with an error.
    pub open spec fn fail(self, e: ErrorModel) -> (RunModel, ActionModel) {
        self.ask(Stage::Done, ActionModel::Fail(e))
    }

    /// The refs that were given are checked, and the graph is asked for.
    pub open spec fn begin(self) -> (RunModel, ActionModel) {
        if given_flag_like(self.args.base) {
            self.fail(ErrorModel::FlagLike { flag: "--base"@, value: self.args.base->0 })
        } else if given_flag_like(self.args.head) {
            self.fail(ErrorModel::FlagLike { flag: "--head"@, value: self.args.head->0 })
        } else {
            self.ask(Stage::Graph, ActionModel::LoadGraph)
        }
    }

    /// The changed files come from git, and so the base ref decides what is
    /// listed.
    pub open spec fn diffs(self) -> bool {
        self.args.diffs()
    }

    /// The base ref shows in what is put out.
    pub open spec fn shows_base(self) -> bool {
        self.diffs() || self.args.format is Json
    }

    /// The base ref is the given one, or that of the environment.
    pub open spec fn with_graph(self, graph: Option<GraphModel>) -> (RunModel, ActionModel) {
        match graph {
            Some(graph) => {
                let run = RunModel { graph, ..self };
                match self.args.base {
                    Some(base) => run.settle(base),
                    None => run.ask(Stage::Variable, ActionModel::ReadBaseVariable),
                }
            },
            None => self.fail(ErrorModel::NoMonorepo),
        }
    }

    /// The base ref is that of the environment, or a default one. Where it shows
    /// nowhere, git is not asked for it.
    pub open spec fn with_variable(self, value: Option<Seq<char>>) -> (RunModel, ActionModel) {
        match value {
            Some(base) => self.settle(base),
            None => if self.shows_base() {
                self.ask(Stage::DefaultRepository, ActionModel::AskRepository)
            } else {
                self.settle("main"@)
            },
        }
    }

    /// There is no default base ref. Only a diff fails for want of it; a report
    /// names the first default then.
    pub open spec fn without_default(self) -> (RunModel, ActionModel) {
        if self.diffs() {
            self.fail(ErrorModel::NoDefaultBase)
        } else {
            self.settle("main"@)
        }
    }

    /// The two refs are settled, and the changed projects are asked for.
    pub open spec fn settle(self, base: Seq<char>) -> (RunModel, ActionModel) {
        if affected::flag_like(base) {
            self.fail(ErrorModel::FlagLike { flag: "MISE_AFFECTED_BASE"@, value: base })
        } else {
            let run = RunModel { base, head: self.args.head_ref(), ..self };
            if self.args.all {
                RunModel { projects: run.graph.ids(), ..run }.narrow()
            } else if self.args.files.len() > 0 {
                run.ask(Stage::Files, ActionModel::ResolveFiles(self.args.files))
            } else {
                run.ask(Stage::Repository, ActionModel::AskRepository)
            }
        }
    }

    /// The projects are those that the files affect.
    pub open spec fn with_files(self, files: Seq<Seq<char>>) -> (RunModel, ActionModel) {
        match changed::first_problem(self.graph.projects) {
            Some(problem) => self.fail(ErrorModel::Globs(problem)),
            None => RunModel {
                projects: self.graph.dependents(self.graph.changed(files.to_set())),
                ..self
            }.narrow(),
        }
    }

    /// Excluded projects are left out, and the tasks of the others are asked
    /// for where the target matters.
    pub open spec fn narrow(self) -> (RunModel, ActionModel) {
        let run = RunModel {
            projects: self.projects.difference(self.args.exclude.to_set()),
            ..self
        };
        match self.args.target {
            Some(target) => run.ask(Stage::Tasks, ActionModel::LoadTasks(target)),
            None => run.finish(),
        }
    }

    /// Projects without a matching task are left out.
    pub open spec fn with_tasks(self, tasks: Seq<Seq<char>>) -> (RunModel, ActionModel) {
        RunModel {
            projects: self.projects.intersect(affected::keepers(tasks)),
            ..self
        }.finish()
    }

    /// The projects are put out.
    pub open spec fn finish(self) -> (RunModel, ActionModel) {
        self.ask(
            Stage::Done,
            ActionModel::Finish(
                affected::shaped(
                    self.args.format,
                    self.args.target,
                    self.projects,
                    self.base,
                    self.head,
                ),
            ),
        )
    }

    /// Where the run stands after an event, and what is to be done then.
    pub open spec fn next(self, event: EventModel) -> (RunModel, ActionModel) {
        match (self.stage, event) {
            (Stage::Start, EventModel::Begin) => self.begin(),
            (Stage::Graph, EventModel::Graph(graph)) => self.with_graph(graph),
            (Stage::Variable, EventModel::Variable(value)) => self.with_variable(value),
            (Stage::DefaultRepository, EventModel::Repository(is)) => if is {
                self.ask(Stage::DefaultMain, ActionModel::VerifyRef("main"@))
            } else {
                self.settle("main"@)
            },
            (Stage::DefaultMain, EventModel::Ref(is)) => if is {
                self.settle("main"@)
            } else {
                self.ask(Stage::DefaultMaster, ActionModel::VerifyRef("master"@))
            },
            (Stage::DefaultMaster, EventModel::Ref(is)) => if is {
                self.settle("master"@)
            } else {
                self.without_default()
            },
            (Stage::Files, EventModel::Files(files)) => self.with_files(files),
            (Stage::Repository, EventModel::Repository(is)) => if is {
                self.ask(Stage::Head, ActionModel::VerifyRef(self.head))
            } else {
                self.fail(ErrorModel::NotARepository { root: self.graph.root })
            },
            (Stage::Head, EventModel::Ref(is)) => if is {
                self.ask(Stage::Base, ActionModel::VerifyRef(self.base))
            } else {
                self.fail(ErrorModel::NoHead { root: self.graph.root, head: self.head })
            },
            (Stage::Base, EventModel::Ref(is)) => if is {
                self.ask(
                    Stage::Ancestor,
                    ActionModel::FindAncestor { base: self.base, head: self.head },
                )
            } else {
                self.fail(ErrorModel::NoBase { root: self.graph.root, base: self.base })
            },
            (Stage::Ancestor, EventModel::Ancestor(is)) => if is {
                self.ask(
                    Stage::Changes,
                    ActionModel::DiffFiles { base: self.base, head: self.head },
                )
            } else {
                self.fail(ErrorModel::NoCommonAncestor { base: self.base, head: self.head })
            },
            (Stage::Changes, EventModel::Files(files)) => self.with_files(files),
            (Stage::Changes, EventModel::ChangesFailed(cause)) => self.fail(
                ErrorModel::NoChanges { base: self.base, head: self.head, cause },
            ),
            (Stage::Tasks, EventModel::Tasks(tasks)) => self.with_tasks(tasks),
            (Stage::Tasks, EventModel::TasksFailed(cause)) => self.fail(
                ErrorModel::NoTasks { cause },
            ),
            _ => self.fail(ErrorModel::OutOfTurn),
        }
    }
}

/// A run that lists the affected projects.
#[derive(Debug)]
pub struct AffectedRun {
    args: Affected,
    stage: Stage,
    graph: ProjectGraph,
    base: String,
    head: String,
    projects: OrderedSet<ProjectId>,
}

impl View for AffectedRun {
    type V = RunModel;

    closed spec fn view(&self) -> RunModel {
        RunModel {
            args: self.args@,
            stage: self.stage,
            graph: self.graph@,
            base: self.base@,
            head: self.head@,
            projects: self.projects@,
        }
    }
}

impl Affected {
    /// A run that lists the projects that are asked for.
    pub fn run(self) -> (r: AffectedRun)
        ensures
            r.wf(),
            r@ == RunModel::start(self@),
    {
        let base = String::new();
        let head = String::new();
        proof {
            assert(base@ =~= Seq::<char>::empty());
            assert(head@ =~= Seq::<char>::empty());
        }
        AffectedRun {
            args: self,
            stage: Stage::Start,
            graph: ProjectGraph::default(),
            base,
            head,
            projects: OrderedSet::new(),
        }
    }
}

impl AffectedRun {
    /// The graph of the run is well formed.
    pub closed spec fn wf(&self) -> bool {
        self.graph.wf()
    }

    /// Asks for something.
    fn ask(&mut self, stage: Stage, action: Action) -> (r: Action)
        ensures
            final(self).wf() == old(self).wf(),
            (final(self)@, r@) == old(self)@.ask(stage, action@),
    {
        self.stage = stage;
        action
    }

    /// Ends with an error.
    fn fail(&mut self, e: AffectedError) -> (r: Action)
        ensures
            final(self).wf() == old(self).wf(),
            (final(self)@, r@) == old(self)@.fail(e@),
    {
        self.ask(Stage::Done, Action::Fail(e))
    }

    fn begin(&mut self) -> (r: Action)
        ensures
            final(self).wf() == old(self).wf(),
            (final(self)@, r@) == old(self)@.begin(),
    {
        if let Err(e) = affected::validate_ref(text::optional_str(&self.args.base), "--base") {
            return self.fail(e);
        }
        if let Err(e) = affected::validate_ref(text::optional_str(&self.args.head), "--head") {
            return self.fail(e);
        }
        self.ask(Stage::Graph, Action::LoadGraph)
    }

    fn with_graph(&mut self, graph: Option<ProjectGraph>) -> (r: Action)
        requires
            old(self).wf(),
            Event::Graph(graph).wf(),
        ensures
            final(self).wf(),
            (final(self)@, r@) == old(self)@.with_graph(
                match graph {
                    Some(graph) => Some(graph@),
                    None => None,
                },
            ),
    {
        match graph {
            Some(graph) => {
                self.graph = graph;
                match text::clone_optional(&self.args.base) {
                    Some(base) => self.settle(base),
                    None => self.ask(Stage::Variable, Action::ReadBaseVariable),
                }
            },
            None => self.fail(AffectedError::NoMonorepo),
        }
    }

    /// Whether the changed files come from git.
    fn diffs(&self) -> (r: bool)
        ensures
            r == self@.diffs(),
    {
        !self.args.all && self.args.files.len() == 0
    }

    /// Whether the base ref shows in what is put out.
    fn shows_base(&self) -> (r: bool)
        ensures
            r == self@.shows_base(),
    {
        match self.args.format {
            AffectedFormat::Json => true,
            _ => self.diffs(),
        }
    }

    fn without_default(&mut self) -> (r: Action)
        requires
            old(self).wf(),
        ensures
            final(self).wf(),
            (final(self)@, r@) == old(self)@.without_default(),
    {
        if self.diffs() {
            self.fail(AffectedError::NoDefaultBase)
        } else {
            self.settle("main".to_owned())
        }
    }

    fn with_variable(&mut self, value: Option<String>) -> (r: Action)
        requires
            old(self).wf(),
        ensures
            final(self).wf(),
            (final(self)@, r@) == old(self)@.with_variable(reader::optional_text(value)),
    {
        match value {
            Some(base) => self.settle(base),
            None => if self.shows_base() {
                self.ask(Stage::DefaultRepository, Action::AskRepository)
            } else {
                self.settle("main".to_owned())
            },
        }
    }

    fn settle(&mut self, base: String) -> (r: Action)
        requires
            old(self).wf(),
        ensures
            final(self).wf(),
            (final(self)@, r@) == old(self)@.settle(base@),
    {
        if let Err(e) = affected::validate_ref(Some(base.as_str()), "MISE_AFFECTED_BASE") {
            return self.fail(e);
        }
        self.base = base;
        self.head = match &self.args.head {
            Some(head) => head.clone(),
            None => "HEAD".to_owned(),
        };
        if self.args.all {
            self.projects = self.graph.all_ids();
            self.narrow()
        } else if self.args.files.len() > 0 {
            let files = text::clone_texts(&self.args.files);
            self.ask(Stage::Files, Action::ResolveFiles(files))
        } else {
            self.ask(Stage::Repository, Action::AskRepository)
        }
    }

    fn with_files(&mut self, files: &Vec<String>) -> (r: Action)
        requires
            old(self).wf(),
        ensures
            final(self).wf(),
            (final(self)@, r@) == old(self)@.with_files(text::texts(files@)),
    {
        match self.graph.affected_from_paths(files.as_slice()) {
            Ok(projects) => {
                self.projects = projects;
                self.narrow()
            },
            Err(e) => self.fail(AffectedError::Globs(e)),
        }
    }

    fn narrow(&mut self) -> (r: Action)
        ensures
            final(self).wf() == old(self).wf(),
            (final(self)@, r@) == old(self)@.narrow(),
    {
        let ghost start = self.projects@;
        let ghost all = text::texts(self.args.exclude@);
        let mut i: usize = 0;
        proof {
            assert(all.take(0).to_set() =~= Set::<Seq<char>>::empty());
            assert(start.difference(all.take(0).to_set()) =~= start);
        }
        while i < self.args.exclude.len()
            invariant
                self.args == old(self).args,
                self.stage == old(self).stage,
                self.graph == old(self).graph,
                self.base == old(self).base,
                self.head == old(self).head,
                all == text::texts(self.args.exclude@),
                i <= self.args.exclude@.len(),
                self.projects@ == start.difference(all.take(i as int).to_set()),
            decreases self.args.exclude@.len() - i,
        {
            let id = self.args.exclude[i].clone();
            let ghost before = self.projects@;
            self.projects.remove(&id);
            proof {
                let some = all.take(i as int);
                let more = all.take(i + 1);
                assert(all[i as int] == id@);
                assert forall|t: Seq<char>| #[trigger]
                    more.to_set().contains(t) <==> some.to_set().contains(t) || t == id@ by {
                    if some.contains(t) {
                        let k = choose|k: int| 0 <= k < some.len() && some[k] == t;
                        assert(more[k] == t);
                    }
                    if t == id@ {
                        assert(more[i as int] == t);
                    }
                    if more.contains(t) && t != id@ {
                        let k = choose|k: int| 0 <= k < more.len() && more[k] == t;
                        assert(some[k] == t);
                    }
                }
                assert(self.projects@ =~= start.difference(more.to_set()));
            }
            i += 1;
        }
        proof {
            assert(all.take(i as int) =~= all);
        }
        match text::clone_optional(&self.args.target) {
            Some(target) => self.ask(Stage::Tasks, Action::LoadTasks(target)),
            None => self.finish(),
        }
    }

    fn with_tasks(&mut self, tasks: &Vec<String>) -> (r: Action)
        ensures
            final(self).wf() == old(self).wf(),
            (final(self)@, r@) == old(self)@.with_tasks(text::texts(tasks@)),
    {
        let keepers = affected::projects_of_tasks(tasks);
        self.projects = self.projects.common(&keepers);
        self.finish()
    }

    fn finish(&mut self) -> (r: Action)
        ensures
            final(self).wf() == old(self).wf(),
            (final(self)@, r@) == old(self)@.finish(),
    {
        let output = affected::output(
            self.args.format,
            &self.args.target,
            self.projects.clone(),
            self.base.as_str(),
            self.head.as_str(),
        );
        self.ask(Stage::Done, Action::Finish(output))
    }

    /// Takes in the answer to what was asked last, and says what is to be done
    /// next.
    pub fn step(&mut self, event: Event) -> (r: Action)
        requires
            old(self).wf(),
            event.wf(),
        ensures
            final(self).wf(),
            (final(self)@, r@) == old(self)@.next(event@),
    {
        match (self.stage, event) {
            (Stage::Start, Event::Begin) => self.begin(),
            (Stage::Graph, Event::Graph(graph)) => self.with_graph(graph),
            (Stage::Variable, Event::Variable(value)) => self.with_variable(value),
            (Stage::DefaultRepository, Event::Repository(is)) => if is {
                self.ask(Stage::DefaultMain, Action::VerifyRef("main".to_owned()))
            } else {
                self.settle("main".to_owned())
            },
            (Stage::DefaultMain, Event::Ref(is)) => if is {
                self.settle("main".to_owned())
            } else {
                self.ask(Stage::DefaultMaster, Action::VerifyRef("master".to_owned()))
            },
            (Stage::DefaultMaster, Event::Ref(is)) => if is {
                self.settle("master".to_owned())
            } else {
                self.without_default()
            },
            (Stage::Files, Event::Files(files)) => self.with_files(&files),
            (Stage::Repository, Event::Repository(is)) => if is {
                let head = self.head.clone();
                self.ask(Stage::Head, Action::VerifyRef(head))
            } else {
                let root = self.graph.root().clone();
                self.fail(AffectedError::NotARepository { root })
            },
            (Stage::Head, Event::Ref(is)) => if is {
                let base = self.base.clone();
                self.ask(Stage::Base, Action::VerifyRef(base))
            } else {
                let root = self.graph.root().clone();
                let head = self.head.clone();
                self.fail(AffectedError::NoHead { root, head })
            },
            (Stage::Base, Event::Ref(is)) => if is {
                let base = self.base.clone();
                let head = self.head.clone();
                self.ask(Stage::Ancestor, Action::FindAncestor { base, head })
            } else {
                let root = self.graph.root().clone();
                let base = self.base.clone();
                self.fail(AffectedError::NoBase { root, base })
            },
            (Stage::Ancestor, Event::Ancestor(is)) => {
                let base = self.base.clone();
                let head = self.head.clone();
                if is {
                    self.ask(Stage::Changes, Action::DiffFiles { base, head })
                } else {
                    self.fail(AffectedError::NoCommonAncestor { base, head })
                }
            },
            (Stage::Changes, Event::Files(files)) => self.with_files(&files),
            (Stage::Changes, Event::ChangesFailed(cause)) => {
                let base = self.base.clone();
                let head = self.head.clone();
                self.fail(AffectedError::NoChanges { base, head, cause })
            },
            (Stage::Tasks, Event::Tasks(tasks)) => self.with_tasks(&tasks),
            (Stage::Tasks, Event::TasksFailed(cause)) => self.fail(
                AffectedError::NoTasks { cause },
            ),
            _ => self.fail(AffectedError::OutOfTurn),
        }
    }
}

/// What there is to learn in a run.
pub struct Answers {
    pub graph: Option<GraphModel>,
    pub variable: Option<Seq<char>>,
    pub is_repo: bool,
    pub has_ref: spec_fn(Seq<char>) -> bool,
    /// Whether a base and a head have a common ancestor.
    pub related: spec_fn(Seq<char>, Seq<char>) -> bool,
    /// The files that changed between a base and a head, or why they are not
    /// known.
    pub changes: spec_fn(Seq<char>, Seq<char>) -> Result<Seq<Seq<char>>, Seq<char>>,
    /// How given files are seen from the monorepo root.
    pub files: spec_fn(Seq<Seq<char>>) -> Seq<Seq<char>>,
    /// The tasks that match a target, or why they are not known.
    pub tasks: spec_fn(Seq<char>) -> Result<Seq<Seq<char>>, Seq<char>>,
}

impl Answers {
    /// The answer to what is asked.
    pub open spec fn to(self, action: ActionModel) -> EventModel {
        match action {
            ActionModel::LoadGraph => EventModel::Graph(self.graph),
            ActionModel::ReadBaseVariable => EventModel::Variable(self.variable),
            ActionModel::AskRepository => EventModel::Repository(self.is_repo),
            ActionModel::VerifyRef(name) => EventModel::Ref((self.has_ref)(name)),
            ActionModel::FindAncestor { base, head } => EventModel::Ancestor(
                (self.related)(base, head),
            ),
            ActionModel::DiffFiles { base, head } => match (self.changes)(base, head) {
                Ok(files) => EventModel::Files(files),
                Err(cause) => EventModel::ChangesFailed(cause),
            },
            ActionModel::ResolveFiles(files) => EventModel::Files((self.files)(files)),
            ActionModel::LoadTasks(target) => match (self.tasks)(target) {
                Ok(tasks) => EventModel::Tasks(tasks),
                Err(cause) => EventModel::TasksFailed(cause),
            },
            _ => EventModel::Begin,
        }
    }

    /// The default base ref that git knows.
    pub open spec fn default_base(self) -> Option<Seq<char>> {
        affected::default_ref(self.is_repo, (self.has_ref)("main"@), (self.has_ref)("master"@))
    }
}

impl RunModel {
    /// How many questions for a base ref may come yet, this one included.
    pub open spec fn searching(self) -> nat {
        match self.stage {
            Stage::Variable => 4,
            Stage::DefaultRepository => 3,
            Stage::DefaultMain => 2,
            Stage::DefaultMaster => 1,
            _ => 0,
        }
    }

    /// The question for a base ref that was asked last.
    pub open spec fn base_question(self) -> ActionModel {
        match self.stage {
            Stage::Variable => ActionModel::ReadBaseVariable,
            Stage::DefaultRepository => ActionModel::AskRepository,
            Stage::DefaultMain => ActionModel::VerifyRef("main"@),
            _ => ActionModel::VerifyRef("master"@),
        }
    }

    /// Where the search for a base ref ends, from a question on, with the given
    /// answers.
    pub open spec fn searched(self, answers: Answers) -> (RunModel, ActionModel)
        decreases self.searching(),
    {
        let (later, action) = self.next(answers.to(self.base_question()));
        if 0 < later.searching() < self.searching() {
            later.searched(answers)
        } else {
            (later, action)
        }
    }

    /// The refs that git is handed from here on are no flags. Those that were
    /// given are known to be none once the run has begun, and those that are in
    /// use once they are settled.
    pub open spec fn guarded(self) -> bool {
        &&& self.begun() ==> !given_flag_like(self.args.base) && !given_flag_like(self.args.head)
        &&& self.settled() ==> !affected::flag_like(self.base) && !affected::flag_like(self.head)
    }

    /// The run has begun and is not over.
    pub open spec fn begun(self) -> bool {
        !(self.stage is Start) && !(self.stage is Done)
    }

    /// The two refs are settled.
    pub open spec fn settled(self) -> bool {
        match self.stage {
            Stage::Start => false,
            Stage::Graph => false,
            Stage::Variable => false,
            Stage::DefaultRepository => false,
            Stage::DefaultMain => false,
            Stage::DefaultMaster => false,
            Stage::Done => false,
            _ => true,
        }
    }

    /// Once the projects are known, none of them is an excluded one.
    pub open spec fn excludes(self) -> bool {
        self.stage is Tasks ==> self.projects.disjoint(self.args.exclude.to_set())
    }
}

/// The action hands nothing to git that it would read as a flag.
pub open spec fn hands_no_flag(action: ActionModel) -> bool {
    match action {
        ActionModel::VerifyRef(name) => !affected::flag_like(name),
        ActionModel::FindAncestor { base, head } => !affected::flag_like(base)
            && !affected::flag_like(head),
        ActionModel::DiffFiles { base, head } => !affected::flag_like(base)
            && !affected::flag_like(head),
        _ => true,
    }
}

/// Without a given base ref the run settles on that of the environment, or on
/// the default one where it matters. Where there is none, only a diff fails.
pub proof fn law_base_search(run: RunModel, answers: Answers)
    requires
        run.stage is Variable,
    ensures
        run.searched(answers) == match answers.variable {
            Some(base) => run.settle(base),
            None => if run.shows_base() {
                match answers.default_base() {
                    Some(base) => run.settle(base),
                    None => run.without_default(),
                }
            } else {
                run.settle("main"@)
            },
        },
{
    reveal_with_fuel(RunModel::searched, 5);
}

/// Without a given base ref, one of the environment that begins with `-` fails
/// the run, whatever the run is to list, and in whatever form.
pub proof fn law_flag_like_variable_refused(run: RunModel, graph: GraphModel, value: Seq<char>)
    requires
        run.stage is Graph,
        run.args.base is None,
        affected::flag_like(value),
    ensures
        ({
            let (asked, question) = run.next(EventModel::Graph(Some(graph)));
            &&& question is ReadBaseVariable
            &&& asked.next(EventModel::Variable(Some(value))).1 == ActionModel::Fail(
                ErrorModel::FlagLike { flag: "MISE_AFFECTED_BASE"@, value },
            )
        }),
{
}

/// Whatever the answers are, no ref that begins with `-` is ever handed to git,
/// wherever it came from: the flags, the environment, or the defaults.
pub proof fn law_no_flag_reaches_git(run: RunModel, event: EventModel)
    requires
        run.guarded(),
    ensures
        run.next(event).0.guarded(),
        hands_no_flag(run.next(event).1),
{
    reveal_strlit("main");
    reveal_strlit("master");
    reveal_strlit("HEAD");
}

/// A run begins guarded, and with nothing to exclude from.
pub proof fn law_start_guarded(args: ArgsModel)
    ensures
        RunModel::start(args).guarded(),
        RunModel::start(args).excludes(),
{
}

/// Whatever the answers are, an excluded project is never put out, nor one
/// without a matching task where a task was asked for.
pub proof fn law_output_respects_filters(run: RunModel, event: EventModel)
    requires
        run.excludes(),
    ensures
        run.next(event).0.excludes(),
        run.next(event).1 is Finish ==> {
            let end = run.next(event).0;
            &&& run.next(event).1 == ActionModel::Finish(
                affected::shaped(
                    run.args.format,
                    run.args.target,
                    end.projects,
                    end.base,
                    end.head,
                ),
            )
            &&& end.projects.disjoint(run.args.exclude.to_set())
            &&& run.args.target is Some ==> (event matches EventModel::Tasks(tasks)
                && end.projects.subset_of(affected::keepers(tasks)))
        },
{
}

/// Once the files are known, what is put out are the projects that they affect,
/// without the excluded ones, and without those that lack a task that was asked
/// for.
pub proof fn law_lists_the_affected(
    run: RunModel,
    files: Seq<Seq<char>>,
    tasks: Seq<Seq<char>>,
)
    requires
        run.stage is Files || run.stage is Changes,
        changed::first_problem(run.graph.projects) is None,
    ensures
        ({
            let affected_projects = run.graph.dependents(run.graph.changed(files.to_set()));
            let wanted = affected_projects.difference(run.args.exclude.to_set());
            let (later, action) = run.next(EventModel::Files(files));
            match run.args.target {
                Some(target) => {
                    &&& action == ActionModel::LoadTasks(target)
                    &&& later.next(EventModel::Tasks(tasks)).1 == ActionModel::Finish(
                        affected::shaped(
                            run.args.format,
                            run.args.target,
                            wanted.intersect(affected::keepers(tasks)),
                            run.base,
                            run.head,
                        ),
                    )
                },
                None => action == ActionModel::Finish(
                    affected::shaped(run.args.format, None, wanted, run.base, run.head),
                ),
            }
        }),
{
}

impl RunModel {
    /// The run, over a graph.
    pub open spec fn over(self, graph: GraphModel) -> RunModel {
        RunModel { graph, ..self }
    }

    /// Every project but the excluded ones.
    pub open spec fn every_project(self) -> Set<Seq<char>> {
        self.graph.ids().difference(self.args.exclude.to_set())
    }

    /// The ids of every project but the excluded ones are put out.
    pub open spec fn lists_every_id(self, action: ActionModel) -> bool {
        action == ActionModel::Finish(
            OutputModel::Lines(text::ascending(self.every_project())),
        )
    }
}

/// Where the ids of every project are asked for, they are put out once the graph
/// is there, without the excluded ones. Nothing is asked of git; where no base
/// ref is given, only the environment is asked for one.
pub proof fn law_lists_every_project(
    run: RunModel,
    graph: GraphModel,
    variable: Option<Seq<char>>,
)
    requires
        run.guarded(),
        run.stage is Graph,
        run.args.all,
        run.args.target is None,
        run.args.format is Ids,
        !given_flag_like(variable),
    ensures
        ({
            let (asked, action) = run.next(EventModel::Graph(Some(graph)));
            match run.args.base {
                Some(_) => run.over(graph).lists_every_id(action),
                None => {
                    &&& action is ReadBaseVariable
                    &&& run.over(graph).lists_every_id(
                        asked.next(EventModel::Variable(variable)).1,
                    )
                },
            }
        }),
{
    reveal_strlit("main");
}

/// Wherever the search for a base ref stands, and whatever git has to say in it:
/// where the ids of every project are asked for, they are put out.
pub proof fn law_search_lists_every_project(run: RunModel, answers: Answers)
    requires
        run.searching() > 0,
        run.args.all,
        run.args.target is None,
        run.args.format is Ids,
        !given_flag_like(answers.variable),
    ensures
        run.lists_every_id(run.searched(answers).1),
{
    reveal_strlit("main");
    reveal_strlit("master");
    reveal_with_fuel(RunModel::searched, 5);
}

/// Where no diff is asked for, no answer in the search for a base ref fails the
/// run, but for a variable that would be read as a flag.
pub proof fn law_only_a_diff_needs_a_base(run: RunModel, answers: Answers)
    requires
        run.searching() > 0,
        !run.diffs(),
        !given_flag_like(answers.variable),
    ensures
        !(run.searched(answers).1 is Fail),
{
    reveal_strlit("main");
    reveal_strlit("master");
    reveal_with_fuel(RunModel::searched, 5);
}

/// Where files are given and no report is asked for, they are resolved once the
/// graph is there. Nothing is asked of git; where no base ref is given, only the
/// environment is asked for one.
pub proof fn law_given_files_need_no_base(
    run: RunModel,
    graph: GraphModel,
    variable: Option<Seq<char>>,
)
    requires
        run.guarded(),
        run.stage is Graph,
        !run.args.all,
        run.args.files.len() > 0,
        !(run.args.format is Json),
        !given_flag_like(variable),
    ensures
        ({
            let (asked, action) = run.next(EventModel::Graph(Some(graph)));
            let resolve = ActionModel::ResolveFiles(run.args.files);
            match run.args.base {
                Some(_) => action == resolve,
                None => {
                    &&& action is ReadBaseVariable
                    &&& asked.next(EventModel::Variable(variable)).1 == resolve
                },
            }
        }),
{
    reveal_strlit("main");
}

impl RunModel {
    /// How many steps may come yet.
    pub open spec fn steps_left(self) -> nat {
        match self.stage {
            Stage::Start => 13,
            Stage::Graph => 12,
            Stage::Variable => 11,
            Stage::DefaultRepository => 10,
            Stage::DefaultMain => 9,
            Stage::DefaultMaster => 8,
            Stage::Files => 7,
            Stage::Repository => 6,
            Stage::Head => 5,
            Stage::Base => 4,
            Stage::Ancestor => 3,
            Stage::Changes => 2,
            Stage::Tasks => 1,
            Stage::Done => 0,
        }
    }

    /// How the run ends, with the given answers to `action` and whatever is asked
    /// behind it.
    pub open spec fn ends(self, action: ActionModel, answers: Answers) -> ActionModel
        decreases self.steps_left(),
    {
        if action is Finish || action is Fail {
            action
        } else {
            let (later, next) = self.next(answers.to(action));
            if later.steps_left() < self.steps_left() {
                later.ends(next, answers)
            } else {
                next
            }
        }
    }
}

/// How a whole run ends, with the given answers.
pub open spec fn run_ends(args: ArgsModel, answers: Answers) -> ActionModel {
    let (run, action) = RunModel::start(args).next(EventModel::Begin);
    run.ends(action, answers)
}

/// The projects that files affect, or what is wrong with the source globs.
pub open spec fn affected_by(graph: GraphModel, files: Seq<Seq<char>>) -> Result<
    Set<Seq<char>>,
    ErrorModel,
> {
    match changed::first_problem(graph.projects) {
        Some(problem) => Err(ErrorModel::Globs(problem)),
        None => Ok(graph.dependents(graph.changed(files.to_set()))),
    }
}

impl ArgsModel {
    /// The base ref: the given one, that of the environment, or the default one.
    /// Where there is none, only a diff fails.
    pub open spec fn base_ref(self, answers: Answers) -> Result<Seq<char>, ErrorModel> {
        match (self.base, answers.variable) {
            (Some(base), _) => Ok(base),
            (None, Some(base)) => if affected::flag_like(base) {
                Err(ErrorModel::FlagLike { flag: "MISE_AFFECTED_BASE"@, value: base })
            } else {
                Ok(base)
            },
            (None, None) => match answers.default_base() {
                Some(base) => Ok(base),
                None => if self.diffs() {
                    Err(ErrorModel::NoDefaultBase)
                } else {
                    Ok("main"@)
                },
            },
        }
    }

    /// The projects before any are left out: all of them, those that the given
    /// files affect, or those that a diff affects.
    pub open spec fn found(
        self,
        answers: Answers,
        graph: GraphModel,
        base: Seq<char>,
    ) -> Result<Set<Seq<char>>, ErrorModel> {
        let head = self.head_ref();
        if self.all {
            Ok(graph.ids())
        } else if self.files.len() > 0 {
            affected_by(graph, (answers.files)(self.files))
        } else if !answers.is_repo {
            Err(ErrorModel::NotARepository { root: graph.root })
        } else if !(answers.has_ref)(head) {
            Err(ErrorModel::NoHead { root: graph.root, head })
        } else if !(answers.has_ref)(base) {
            Err(ErrorModel::NoBase { root: graph.root, base })
        } else if !(answers.related)(base, head) {
            Err(ErrorModel::NoCommonAncestor { base, head })
        } else {
            match (answers.changes)(base, head) {
                Ok(files) => affected_by(graph, files),
                Err(cause) => Err(ErrorModel::NoChanges { base, head, cause }),
            }
        }
    }

    /// The projects out of `found` that are listed: without the excluded ones,
    /// and without those that lack a task that was asked for.
    pub open spec fn kept(self, answers: Answers, found: Set<Seq<char>>) -> Result<
        Set<Seq<char>>,
        ErrorModel,
    > {
        let wanted = found.difference(self.exclude.to_set());
        match self.target {
            Some(target) => match (answers.tasks)(target) {
                Ok(tasks) => Ok(wanted.intersect(affected::keepers(tasks))),
                Err(cause) => Err(ErrorModel::NoTasks { cause }),
            },
            None => Ok(wanted),
        }
    }

    /// What is put out for the projects that were found.
    pub open spec fn put_out(
        self,
        answers: Answers,
        base: Seq<char>,
        found: Result<Set<Seq<char>>, ErrorModel>,
    ) -> Result<OutputModel, ErrorModel> {
        match found {
            Ok(found) => match self.kept(answers, found) {
                Ok(projects) => Ok(
                    affected::shaped(self.format, self.target, projects, base, self.head_ref()),
                ),
                Err(e) => Err(e),
            },
            Err(e) => Err(e),
        }
    }

    /// What a run puts out, or the error that it ends with.
    pub open spec fn outcome(self, answers: Answers) -> Result<OutputModel, ErrorModel> {
        if given_flag_like(self.base) {
            Err(ErrorModel::FlagLike { flag: "--base"@, value: self.base->0 })
        } else if given_flag_like(self.head) {
            Err(ErrorModel::FlagLike { flag: "--head"@, value: self.head->0 })
        } else {
            match (answers.graph, self.base_ref(answers)) {
                (None, _) => Err(ErrorModel::NoMonorepo),
                (Some(_), Err(e)) => Err(e),
                (Some(graph), Ok(base)) => self.put_out(
                    answers,
                    base,
                    self.found(answers, graph, base),
                ),
            }
        }
    }
}

/// The last action of a run with the given outcome.
pub open spec fn last_action(outcome: Result<OutputModel, ErrorModel>) -> ActionModel {
    match outcome {
        Ok(output) => ActionModel::Finish(output),
        Err(e) => ActionModel::Fail(e),
    }
}

/// How a run ends whose projects are found.
proof fn lemma_narrowed(run: RunModel, answers: Answers)
    requires
        run.head == run.args.head_ref(),
    ensures
        ({
            let (later, action) = run.narrow();
            later.ends(action, answers) == last_action(
                run.args.put_out(answers, run.base, Ok(run.projects)),
            )
        }),
{
    reveal_with_fuel(RunModel::ends, 3);
}

/// How a run ends whose files are known.
proof fn lemma_filed(run: RunModel, answers: Answers, files: Seq<Seq<char>>)
    requires
        run.head == run.args.head_ref(),
    ensures
        ({
            let (later, action) = run.with_files(files);
            later.ends(action, answers) == last_action(
                run.args.put_out(answers, run.base, affected_by(run.graph, files)),
            )
        }),
{
    if changed::first_problem(run.graph.projects) is None {
        lemma_narrowed(
            RunModel {
                projects: run.graph.dependents(run.graph.changed(files.to_set())),
                ..run
            },
            answers,
        );
    }
}

/// How a run ends that asks git for the changes.
proof fn lemma_diffed(run: RunModel, answers: Answers)
    requires
        run.stage is Repository,
        run.args.diffs(),
        run.head == run.args.head_ref(),
    ensures
        run.ends(ActionModel::AskRepository, answers) == last_action(
            run.args.put_out(
                answers,
                run.base,
                run.args.found(answers, run.graph, run.base),
            ),
        ),
{
    reveal_with_fuel(RunModel::ends, 6);
    if let Ok(files) = (answers.changes)(run.base, run.head) {
        lemma_filed(RunModel { stage: Stage::Changes, ..run }, answers, files);
    }
}

/// How a run ends that settles on a base ref.
proof fn lemma_settled(run: RunModel, answers: Answers, base: Seq<char>)
    requires
        !affected::flag_like(base),
    ensures
        ({
            let (later, action) = run.settle(base);
            later.ends(action, answers) == last_action(
                run.args.put_out(answers, base, run.args.found(answers, run.graph, base)),
            )
        }),
{
    let settled = RunModel { base, head: run.args.head_ref(), ..run };
    if run.args.all {
        lemma_narrowed(RunModel { projects: run.graph.ids(), ..settled }, answers);
    } else if run.args.files.len() > 0 {
        let asked = RunModel { stage: Stage::Files, ..settled };
        let files = (answers.files)(run.args.files);
        lemma_filed(asked, answers, files);
        reveal_with_fuel(RunModel::ends, 2);
    } else {
        lemma_diffed(RunModel { stage: Stage::Repository, ..settled }, answers);
    }
}

/// How a run ends that searches for a base ref.
proof fn lemma_searched(run: RunModel, answers: Answers)
    requires
        run.searching() > 0,
    ensures
        run.ends(run.base_question(), answers) == run.searched(answers).0.ends(
            run.searched(answers).1,
            answers,
        ),
    decreases run.searching(),
{
    let (later, action) = run.next(answers.to(run.base_question()));
    assert(later.steps_left() < run.steps_left());
    if later.searching() > 0 {
        assert(action == later.base_question());
        lemma_searched(later, answers);
    }
}

/// Where the base ref does not show, it does not matter.
proof fn lemma_hidden_base(
    args: ArgsModel,
    answers: Answers,
    graph: GraphModel,
    a: Seq<char>,
    b: Seq<char>,
)
    requires
        !args.diffs(),
        !(args.format is Json),
    ensures
        args.put_out(answers, a, args.found(answers, graph, a)) == args.put_out(
            answers,
            b,
            args.found(answers, graph, b),
        ),
{
}

/// What a whole run comes to: the refs are checked before anything is asked, the
/// base ref is found, the projects are found and narrowed, and they are put out
/// in the form that was asked for.
pub proof fn law_whole_run(args: ArgsModel, answers: Answers)
    ensures
        run_ends(args, answers) == last_action(args.outcome(answers)),
{
    reveal_strlit("main");
    reveal_strlit("master");
    reveal_with_fuel(RunModel::ends, 2);
    let (run, action) = RunModel::start(args).next(EventModel::Begin);
    if !given_flag_like(args.base) && !given_flag_like(args.head) && answers.graph is Some {
        let graph = answers.graph->0;
        let (asked, question) = run.next(EventModel::Graph(Some(graph)));
        match args.base {
            Some(base) => {
                lemma_settled(run.over(graph), answers, base);
            },
            None => {
                assert(question == asked.base_question());
                lemma_searched(asked, answers);
                law_base_search(asked, answers);
                match args.base_ref(answers) {
                    Ok(base) => {
                        lemma_settled(asked, answers, base);
                        if answers.variable is None && !asked.shows_base() {
                            lemma_settled(asked, answers, "main"@);
                            lemma_hidden_base(args, answers, graph, base, "main"@);
                        }
                    },
                    Err(_) => {},
                }
            },
        }
    }
}

/// With the same answers a report lists what the ids are listed for: the same
/// projects in the same order, with the refs and with the names of the task that
/// was asked for. Where the one run fails, so does the other.
pub proof fn law_report_lists_the_ids(args: ArgsModel, answers: Answers)
    ensures
        ({
            let ids = run_ends(ArgsModel { format: AffectedFormat::Ids, ..args }, answers);
            let report = run_ends(ArgsModel { format: AffectedFormat::Json, ..args }, answers);
            match ids {
                ActionModel::Finish(OutputModel::Lines(listed)) => {
                    &&& args.base_ref(answers) is Ok
                    &&& report == ActionModel::Finish(
                        OutputModel::Report {
                            schema: "mise-affected-experimental"@,
                            version: 1,
                            base: args.base_ref(answers)->Ok_0,
                            head: args.head_ref(),
                            projects: listed,
                            target_tasks: match args.target {
                                Some(task) => Some(affected::task_names(listed, task)),
                                None => None,
                            },
                        },
                    )
                },
                ActionModel::Fail(_) => report == ids,
                _ => false,
            }
        }),
{
    law_whole_run(ArgsModel { format: AffectedFormat::Ids, ..args }, answers);
    law_whole_run(ArgsModel { format: AffectedFormat::Json, ..args }, answers);
}

/// A ref that begins with `-` fails a run, whether it was given or, where no base
/// ref was given, came from the environment, and whatever the run is to list.
pub proof fn law_flag_like_refs_refused(args: ArgsModel, answers: Answers)
    requires
        given_flag_like(args.head) || given_flag_like(
            match args.base {
                Some(base) => Some(base),
                None => answers.variable,
            },
        ),
    ensures
        run_ends(args, answers) is Fail,
        answers.graph is Some ==> run_ends(args, answers)->Fail_0 is FlagLike,
{
    law_whole_run(args, answers);
}

/// What is asked of a run is what the arguments say, each of them.
pub proof fn law_args(a: Affected, i: int)
    ensures
        a@.all == a.all,
        a@.format == a.format,
        a@.base is Some <==> a.base is Some,
        a.base is Some ==> a@.base->0 == (a.base->0)@,
        a@.head is Some <==> a.head is Some,
        a.head is Some ==> a@.head->0 == (a.head->0)@,
        a@.target is Some <==> a.target is Some,
        a.target is Some ==> a@.target->0 == (a.target->0)@,
        a@.exclude.len() == a.exclude@.len(),
        0 <= i < a.exclude@.len() ==> a@.exclude[i] == a.exclude@[i]@,
        a@.files.len() == a.files@.len(),
        0 <= i < a.files@.len() ==> a@.files[i] == a.files@[i]@,
{
}

/// The refs of a run: the base is the given one, or that of the environment, or
/// `main` or `master`, and the head is the given one, or `HEAD`. Neither begins
/// with a dash.
pub open spec fn are_refs(
    args: ArgsModel,
    answers: Answers,
    base: Seq<char>,
    head: Seq<char>,
) -> bool {
    &&& base.len() == 0 || base[0] != '-'
    &&& head.len() == 0 || head[0] != '-'
    &&& match args.head {
        Some(given) => head == given,
        None => head == seq!['H', 'E', 'A', 'D'],
    }
    &&& match (args.base, answers.variable) {
        (Some(given), _) => base == given,
        (None, Some(given)) => base == given,
        (None, None) => if !answers.is_repo || (answers.has_ref)(seq!['m', 'a', 'i', 'n']) {
            base == seq!['m', 'a', 'i', 'n']
        } else if (answers.has_ref)(seq!['m', 'a', 's', 't', 'e', 'r']) {
            base == seq!['m', 'a', 's', 't', 'e', 'r']
        } else {
            (args.all || args.files.len() > 0) && base == seq!['m', 'a', 'i', 'n']
        },
    }
}

/// The refs and the files of a run over a graph: the files are the given ones, or
/// those of a diff that git can make.
pub open spec fn is_course(
    args: ArgsModel,
    answers: Answers,
    graph: GraphModel,
    base: Seq<char>,
    head: Seq<char>,
    files: Seq<Seq<char>>,
) -> bool {
    &&& answers.graph == Some(graph)
    &&& are_refs(args, answers, base, head)
    &&& args.files.len() > 0 ==> files == (answers.files)(args.files)
    &&& !args.all && args.files.len() == 0 ==> {
        &&& answers.is_repo
        &&& (answers.has_ref)(head)
        &&& (answers.has_ref)(base)
        &&& (answers.related)(base, head)
        &&& (answers.changes)(base, head) == Ok::<Seq<Seq<char>>, Seq<char>>(files)
    }
}

/// The source globs of every project can be used, where files are looked at.
pub open spec fn globs_usable(args: ArgsModel, graph: GraphModel) -> bool {
    !args.all ==> forall|i: int|
        0 <= i < graph.projects.len() ==> changed::usable(#[trigger] graph.projects[i])
}

/// The project is listed: it is one of all, or affected by the files, it is not
/// excluded, and it has a matching task where one is asked for.
pub open spec fn is_listed(
    args: ArgsModel,
    graph: GraphModel,
    files: Seq<Seq<char>>,
    tasks: Seq<Seq<char>>,
    id: Seq<char>,
) -> bool {
    &&& if args.all {
        graph.has(id)
    } else {
        graph.dependents(graph.changed(files.to_set())).contains(id)
    }
    &&& !args.exclude.contains(id)
    &&& args.target is Some ==> affected::keepers(tasks).contains(id)
}

/// A run whose refs and files can be had ends with what it lists: every project
/// that is one of all or affected by the files, that is not excluded, and that has
/// a matching task where one is asked for, and no other, in ascending order. The
/// lines are the ids or the names of the task in them; a report has both.
pub proof fn law_run_lists(
    args: ArgsModel,
    answers: Answers,
    graph: GraphModel,
    base: Seq<char>,
    head: Seq<char>,
    files: Seq<Seq<char>>,
    tasks: Seq<Seq<char>>,
    ids: Seq<Seq<char>>,
)
    requires
        is_course(args, answers, graph, base, head, files),
        globs_usable(args, graph),
        args.target is Some ==> (answers.tasks)(args.target->0) == Ok::<
            Seq<Seq<char>>,
            Seq<char>,
        >(tasks),
        forall|id: Seq<char>| #[trigger]
            ids.contains(id) <==> is_listed(args, graph, files, tasks, id),
        forall|i: int, j: int|
            0 <= i < j < ids.len() ==> text::text_before(#[trigger] ids[i], #[trigger] ids[j]),
    ensures
        match run_ends(args, answers) {
            ActionModel::Finish(OutputModel::Lines(lines)) => {
                &&& !(args.format is Json)
                &&& lines.len() == ids.len()
                &&& forall|i: int|
                    0 <= i < ids.len() ==> #[trigger] lines[i] == if args.format is Tasks
                        && args.target is Some {
                        ids[i] + seq![':'] + args.target->0
                    } else {
                        ids[i]
                    }
            },
            ActionModel::Finish(
                OutputModel::Report { schema, version, base: b, head: h, projects, target_tasks },
            ) => {
                &&& args.format is Json
                &&& version == 1
                &&& b == base
                &&& h == head
                &&& projects == ids
                &&& target_tasks is Some <==> args.target is Some
                &&& target_tasks is Some ==> {
                    &&& (target_tasks->0).len() == ids.len()
                    &&& forall|i: int|
                        0 <= i < ids.len() ==> #[trigger] (target_tasks->0)[i] == ids[i] + seq![':']
                            + args.target->0
                }
            },
            _ => false,
        },
{
    lemma_names_of_refs();
    law_whole_run(args, answers);
    changed::law_first_problem(graph.projects);
    assert(args.base_ref(answers) == Ok::<Seq<char>, ErrorModel>(base));
    let found = if args.all {
        graph.ids()
    } else {
        graph.dependents(graph.changed(files.to_set()))
    };
    assert(args.found(answers, graph, base) == Ok::<Set<Seq<char>>, ErrorModel>(found));
    let wanted = found.difference(args.exclude.to_set());
    let kept = match args.target {
        Some(_) => wanted.intersect(affected::keepers(tasks)),
        None => wanted,
    };
    assert(args.kept(answers, found) == Ok::<Set<Seq<char>>, ErrorModel>(kept));
    assert forall|id: Seq<char>| #[trigger] ids.to_set().contains(id) <==> kept.contains(id) by {
        assert(ids.contains(id) <==> is_listed(args, graph, files, tasks, id));
    }
    assert(ids.to_set() =~= kept);
    affected::law_output_lists_the_projects(args.format, args.target, kept, base, head, ids);
}

proof fn lemma_names_of_refs()
    ensures
        "HEAD"@ == seq!['H', 'E', 'A', 'D'],
        "main"@ == seq!['m', 'a', 'i', 'n'],
        "master"@ == seq!['m', 'a', 's', 't', 'e', 'r'],
{
    reveal_strlit("HEAD");
    reveal_strlit("main");
    reveal_strlit("master");
    assert("HEAD"@ =~= seq!['H', 'E', 'A', 'D']);
    assert("main"@ =~= seq!['m', 'a', 'i', 'n']);
    assert("master"@ =~= seq!['m', 'a', 's', 't', 'e', 'r']);
}

/// A run fails for the first thing that is amiss: a given ref that would be read as
/// a flag, the missing monorepo, a base ref of the environment that would be read
/// as a flag, and a diff without a default base.
pub proof fn law_run_refuses(args: ArgsModel, answers: Answers)
    ensures
        ({
            let end = run_ends(args, answers);
            let base_flag = args.base is Some && (args.base->0).len() > 0 && (args.base->0)[0]
                == '-';
            let head_flag = args.head is Some && (args.head->0).len() > 0 && (args.head->0)[0]
                == '-';
            let variable_flag = args.base is None && answers.variable is Some && (
            answers.variable->0).len() > 0 && (answers.variable->0)[0] == '-';
            let no_default = {
                &&& args.base is None
                &&& answers.variable is None
                &&& answers.is_repo
                &&& !(answers.has_ref)(seq!['m', 'a', 'i', 'n'])
                &&& !(answers.has_ref)(seq!['m', 'a', 's', 't', 'e', 'r'])
                &&& !args.all
                &&& args.files.len() == 0
            };
            &&& base_flag ==> end == ActionModel::Fail(
                ErrorModel::FlagLike { flag: "--base"@, value: args.base->0 },
            )
            &&& !base_flag && head_flag ==> end == ActionModel::Fail(
                ErrorModel::FlagLike { flag: "--head"@, value: args.head->0 },
            )
            &&& !base_flag && !head_flag && answers.graph is None ==> end == ActionModel::Fail(
                ErrorModel::NoMonorepo,
            )
            &&& !base_flag && !head_flag && answers.graph is Some && variable_flag ==> end
                == ActionModel::Fail(
                ErrorModel::FlagLike {
                    flag: "MISE_AFFECTED_BASE"@,
                    value: answers.variable->0,
                },
            )
            &&& !base_flag && !head_flag && answers.graph is Some && no_default ==> end
                == ActionModel::Fail(ErrorModel::NoDefaultBase)
        }),
{
    lemma_names_of_refs();
    law_whole_run(args, answers);
}

/// A diff between two refs fails where the monorepo is no repository, where the
/// head or the base does not exist, where they have no common ancestor, and where
/// the changes cannot be found out, whichever comes first.
pub proof fn law_diff_fails(
    args: ArgsModel,
    answers: Answers,
    graph: GraphModel,
    base: Seq<char>,
    head: Seq<char>,
)
    requires
        answers.graph == Some(graph),
        are_refs(args, answers, base, head),
        !args.all,
        args.files.len() == 0,
    ensures
        ({
            let end = run_ends(args, answers);
            if !answers.is_repo {
                end == ActionModel::Fail(ErrorModel::NotARepository { root: graph.root })
            } else if !(answers.has_ref)(head) {
                end == ActionModel::Fail(ErrorModel::NoHead { root: graph.root, head })
            } else if !(answers.has_ref)(base) {
                end == ActionModel::Fail(ErrorModel::NoBase { root: graph.root, base })
            } else if !(answers.related)(base, head) {
                end == ActionModel::Fail(ErrorModel::NoCommonAncestor { base, head })
            } else if let Err(cause) = (answers.changes)(base, head) {
                end == ActionModel::Fail(ErrorModel::NoChanges { base, head, cause })
            } else {
                true
            }
        }),
{
    lemma_names_of_refs();
    law_whole_run(args, answers);
    assert(args.base_ref(answers) == Ok::<Seq<char>, ErrorModel>(base));
}

/// A run that looks at files fails where some project has unusable source globs,
/// for the first such project. One that lists every project does not look.
pub proof fn law_unusable_globs_fail(
    args: ArgsModel,
    answers: Answers,
    graph: GraphModel,
    base: Seq<char>,
    head: Seq<char>,
    files: Seq<Seq<char>>,
    i: int,
)
    requires
        is_course(args, answers, graph, base, head, files),
        !args.all,
        0 <= i < graph.projects.len(),
        !changed::usable(graph.projects[i]),
        forall|j: int| 0 <= j < i ==> changed::usable(#[trigger] graph.projects[j]),
    ensures
        graph.projects[i].glob_problem() is Some,
        run_ends(args, answers) == ActionModel::Fail(
            ErrorModel::Globs(graph.projects[i].glob_problem()->0),
        ),
{
    lemma_names_of_refs();
    law_whole_run(args, answers);
    assert(args.base_ref(answers) == Ok::<Seq<char>, ErrorModel>(base));
    changed::law_first_problem(graph.projects);
    changed::law_glob_problem(graph.projects[i]);
    let k = choose|k: int|
        {
            &&& 0 <= k < graph.projects.len()
            &&& changed::first_problem(graph.projects) == (
            #[trigger] graph.projects[k]).glob_problem()
            &&& !changed::usable(graph.projects[k])
            &&& forall|j: int| 0 <= j < k ==> changed::usable(#[trigger] graph.projects[j])
        };
    assert(changed::first_problem(graph.projects) is Some);
    assert(k == i) by {
        if k < i {
            assert(changed::usable(graph.projects[k]));
        }
        if i < k {
            assert(changed::usable(graph.projects[i]));
        }
    }
}

/// A run that asks for a task fails where the tasks cannot be loaded, for that
/// reason.
pub proof fn law_missing_tasks_fail(
    args: ArgsModel,
    answers: Answers,
    graph: GraphModel,
    base: Seq<char>,
    head: Seq<char>,
    files: Seq<Seq<char>>,
    cause: Seq<char>,
)
    requires
        is_course(args, answers, graph, base, head, files),
        globs_usable(args, graph),
        args.target is Some,
        (answers.tasks)(args.target->0) == Err::<Seq<Seq<char>>, Seq<char>>(cause),
    ensures
        run_ends(args, answers) == ActionModel::Fail(ErrorModel::NoTasks { cause }),
{
    lemma_names_of_refs();
    law_whole_run(args, answers);
    changed::law_first_problem(graph.projects);
    assert(args.base_ref(answers) == Ok::<Seq<char>, ErrorModel>(base));
    let found = if args.all {
        graph.ids()
    } else {
        graph.dependents(graph.changed(files.to_set()))
    };
    assert(args.found(answers, graph, base) == Ok::<Set<Seq<char>>, ErrorModel>(found));
}

/// An event that does not answer what was asked last fails the run.
pub proof fn law_out_of_turn(run: RunModel, event: EventModel)
    requires
        match run.stage {
            Stage::Start => !(event is Begin),
            Stage::Graph => !(event is Graph),
            Stage::Variable => !(event is Variable),
            Stage::DefaultRepository => !(event is Repository),
            Stage::DefaultMain => !(event is Ref),
            Stage::DefaultMaster => !(event is Ref),
            Stage::Files => !(event is Files),
            Stage::Repository => !(event is Repository),
            Stage::Head => !(event is Ref),
            Stage::Base => !(event is Ref),
            Stage::Ancestor => !(event is Ancestor),
            Stage::Changes => !(event is Files) && !(event is ChangesFailed),
            Stage::Tasks => !(event is Tasks) && !(event is TasksFailed),
            Stage::Done => true,
        },
    ensures
        run.next(event).0.stage is Done,
        run.next(event).1 == ActionModel::Fail(ErrorModel::OutOfTurn),
{
}

/// What is put out is what its fields say, each of them.
pub proof fn law_output(lines: Vec<String>, report: AffectedReport, i: int)
    ensures
        match Output::Lines(lines)@ {
            OutputModel::Lines(texts) => {
                &&& texts.len() == lines@.len()
                &&& 0 <= i < lines@.len() ==> texts[i] == lines@[i]@
            },
            _ => false,
        },
        match Output::Report(report)@ {
            OutputModel::Report { schema, version, base, head, projects, target_tasks } => {
                &&& schema == report.schema@
                &&& version == report.version
                &&& base == report.base@
                &&& head == report.head@
                &&& projects.len() == report.projects@.len()
                &&& 0 <= i < report.projects@.len() ==> projects[i] == report.projects@[i]@
                &&& target_tasks is Some <==> report.target_tasks is Some
                &&& report.target_tasks is Some ==> {
                    &&& (target_tasks->0).len() == (report.target_tasks->0)@.len()
                    &&& 0 <= i < (report.target_tasks->0)@.len() ==> (target_tasks->0)[i] == (
                    report.target_tasks->0)@[i]@
                }
            },
            _ => false,
        },
{
}

} // verus!
