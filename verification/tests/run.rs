//! Runs of the affected command, answer by answer.
use project_graph::affected::Affected;
use project_graph::affected::AffectedFormat;
use project_graph::affected::Output;
use project_graph::run::Action;
use project_graph::run::AffectedRun;
use project_graph::run::Event;
use project_graph::Project;
use project_graph::ProjectGraph;
use project_graph::ProjectSource;

fn args() -> Affected {
    Affected {
        all: false,
        base: None,
        exclude: vec![],
        files: vec![],
        format: AffectedFormat::Ids,
        head: None,
        target: None,
    }
}

/// `//app` depends on `//lib`; `//doc` stands alone.
fn graph() -> ProjectGraph {
    let mut g = ProjectGraph::new("/tmp/mono".to_string());
    for id in ["//app", "//doc", "//lib"] {
        g.upsert_project(Project::new(id.to_string(), id[2..].to_string(), ProjectSource::Mise));
    }
    g.add_edge("//app", "//lib");
    g
}

fn text(action: Action) -> String {
    match action {
        Action::LoadGraph => "load graph".to_string(),
        Action::ReadBaseVariable => "read variable".to_string(),
        Action::AskRepository => "ask repository".to_string(),
        Action::VerifyRef(name) => format!("verify {name}"),
        Action::FindAncestor { base, head } => format!("ancestor {base} {head}"),
        Action::DiffFiles { base, head } => format!("diff {base} {head}"),
        Action::ResolveFiles(files) => format!("resolve {}", files.join(" ")),
        Action::LoadTasks(target) => format!("tasks {target}"),
        Action::Finish(Output::Lines(lines)) => format!("lines {}", lines.join(" ")),
        Action::Finish(Output::Report(report)) => {
            format!("report {} {} {}", report.base, report.head, report.projects.join(" "))
        }
        Action::Fail(e) => format!("fail {}", e.message()),
    }
}

/// A run that has got its graph, and what is asked then.
fn with_graph(args: Affected) -> (AffectedRun, String) {
    let mut run = args.run();
    assert_eq!(text(run.step(Event::Begin)), "load graph");
    let asked = text(run.step(Event::Graph(Some(graph()))));
    (run, asked)
}

#[test]
fn changes_between_refs_are_followed() {
    let (mut run, asked) = with_graph(args());
    assert_eq!(asked, "read variable");
    assert_eq!(text(run.step(Event::Variable(None))), "ask repository");
    assert_eq!(text(run.step(Event::Repository(true))), "verify main");
    assert_eq!(text(run.step(Event::Ref(true))), "ask repository");
    assert_eq!(text(run.step(Event::Repository(true))), "verify HEAD");
    assert_eq!(text(run.step(Event::Ref(true))), "verify main");
    assert_eq!(text(run.step(Event::Ref(true))), "ancestor main HEAD");
    assert_eq!(text(run.step(Event::Ancestor(true))), "diff main HEAD");
    assert_eq!(text(run.step(Event::Files(vec!["lib/x".into()]))), "lines //app //lib");
    assert_eq!(text(run.step(Event::Begin)), "fail an answer came that was not asked for");
}

#[test]
fn master_is_the_second_default() {
    let (mut run, _) = with_graph(args());
    run.step(Event::Variable(None));
    assert_eq!(text(run.step(Event::Repository(true))), "verify main");
    assert_eq!(text(run.step(Event::Ref(false))), "verify master");
    assert_eq!(text(run.step(Event::Ref(true))), "ask repository");
    assert_eq!(text(run.step(Event::Repository(true))), "verify HEAD");
    assert_eq!(text(run.step(Event::Ref(true))), "verify master");
}

#[test]
fn no_default_base_is_an_error() {
    let (mut run, _) = with_graph(args());
    run.step(Event::Variable(None));
    run.step(Event::Repository(true));
    run.step(Event::Ref(false));
    assert_eq!(
        text(run.step(Event::Ref(false))),
        "fail could not determine default base ref (tried 'main' and 'master'); pass --base explicitly"
    );
}

#[test]
fn outside_a_repository_files_are_needed() {
    let (mut run, _) = with_graph(args());
    run.step(Event::Variable(None));
    assert_eq!(text(run.step(Event::Repository(false))), "ask repository");
    assert_eq!(
        text(run.step(Event::Repository(false))),
        "fail monorepo root /tmp/mono is not a git repository — pass --files explicitly"
    );
}

#[test]
fn refs_that_look_like_flags_are_refused() {
    let mut base = args();
    base.base = Some("--output=x".into());
    assert_eq!(
        text(base.run().step(Event::Begin)),
        "fail --base value \"--output=x\" starts with '-'; refusing to forward to git"
    );
    let mut head = args();
    head.head = Some("-h".into());
    assert_eq!(
        text(head.run().step(Event::Begin)),
        "fail --head value \"-h\" starts with '-'; refusing to forward to git"
    );
    let (mut run, _) = with_graph(args());
    assert_eq!(
        text(run.step(Event::Variable(Some("-v".into())))),
        "fail MISE_AFFECTED_BASE value \"-v\" starts with '-'; refusing to forward to git"
    );
}

#[test]
fn without_a_monorepo_there_is_nothing_to_list() {
    let mut run = args().run();
    run.step(Event::Begin);
    assert_eq!(
        text(run.step(Event::Graph(None))),
        "fail no monorepo found — set `experimental_monorepo_root = true` in your root mise.toml"
    );
}

#[test]
fn missing_refs_are_told_apart() {
    let given = || {
        let mut a = args();
        a.base = Some("dev".into());
        a.head = Some("topic".into());
        with_graph(a)
    };
    let (mut run, asked) = given();
    assert_eq!(asked, "ask repository");
    assert_eq!(text(run.step(Event::Repository(true))), "verify topic");
    assert_eq!(
        text(run.step(Event::Ref(false))),
        "fail /tmp/mono has no commit named 'topic' — make an initial commit or pass --files"
    );
    let (mut run, _) = given();
    run.step(Event::Repository(true));
    assert_eq!(text(run.step(Event::Ref(true))), "verify dev");
    assert_eq!(
        text(run.step(Event::Ref(false))),
        "fail /tmp/mono has no commit or branch named 'dev' — pass --base explicitly or run `git fetch`"
    );
    let (mut run, _) = given();
    run.step(Event::Repository(true));
    run.step(Event::Ref(true));
    run.step(Event::Ref(true));
    assert_eq!(
        text(run.step(Event::Ancestor(false))),
        "fail no common ancestor between 'dev' and 'topic' (orphan branches or unrelated histories)\npass --base/--head to commits reachable from both, or use --files"
    );
    let (mut run, _) = given();
    run.step(Event::Repository(true));
    run.step(Event::Ref(true));
    run.step(Event::Ref(true));
    assert_eq!(text(run.step(Event::Ancestor(true))), "diff dev topic");
    assert_eq!(
        text(run.step(Event::ChangesFailed("shallow".into()))),
        "fail could not compute changed files for dev...topic (if this is a shallow clone, run `git fetch --unshallow` or pass --files)"
    );
}

#[test]
fn given_files_replace_the_diff() {
    let mut a = args();
    a.base = Some("dev".into());
    a.files = vec!["lib/x".into(), "doc/y".into()];
    let (mut run, asked) = with_graph(a);
    assert_eq!(asked, "resolve lib/x doc/y");
    assert_eq!(text(run.step(Event::Files(vec!["doc/y".into()]))), "lines //doc");
}

#[test]
fn all_projects_can_be_listed() {
    let mut a = args();
    a.base = Some("dev".into());
    a.all = true;
    a.format = AffectedFormat::Json;
    a.exclude = vec!["//doc".into(), "//ghost".into()];
    let (_, asked) = with_graph(a);
    assert_eq!(asked, "report dev HEAD //app //lib");
}

#[test]
fn target_keeps_projects_with_the_task() {
    let mut a = args();
    a.base = Some("dev".into());
    a.all = true;
    a.target = Some("build".into());
    a.format = AffectedFormat::Tasks;
    a.exclude = vec!["//lib".into()];
    let (mut run, asked) = with_graph(a);
    assert_eq!(asked, "tasks build");
    let tasks = vec!["//app:build".to_string(), "//lib:build".to_string(), "build".to_string()];
    assert_eq!(text(run.step(Event::Tasks(tasks))), "lines //app:build");
}

#[test]
fn failed_tasks_are_reported() {
    let mut a = args();
    a.base = Some("dev".into());
    a.all = true;
    a.target = Some("build".into());
    let (mut run, _) = with_graph(a);
    assert_eq!(
        text(run.step(Event::TasksFailed("boom".into()))),
        "fail could not load tasks for --target filter"
    );
}

#[test]
fn unusable_globs_are_reported() {
    let mut a = args();
    a.base = Some("dev".into());
    a.files = vec!["x".into()];
    let mut g = graph();
    let mut bad = Project::new("//bad".into(), "bad".to_string(), ProjectSource::Nx);
    bad.sources = vec!["[".into()];
    g.upsert_project(bad);
    let mut run = a.run();
    run.step(Event::Begin);
    run.step(Event::Graph(Some(g)));
    assert_eq!(
        text(run.step(Event::Files(vec!["x".into()]))),
        "fail project '//bad' has invalid source glob '['"
    );
}

#[test]
fn answers_out_of_turn_end_the_run() {
    let mut run = args().run();
    assert_eq!(text(run.step(Event::Ref(true))), "fail an answer came that was not asked for");
    assert_eq!(text(run.step(Event::Begin)), "fail an answer came that was not asked for");
}

/// Runs on, where git has neither of the default refs and the variable is not
/// set, until something else is asked.
fn without_defaults(args: Affected) -> (AffectedRun, String) {
    let (mut run, mut asked) = with_graph(args);
    loop {
        let event = match asked.as_str() {
            "read variable" => Event::Variable(None),
            "ask repository" => Event::Repository(true),
            "verify main" => Event::Ref(false),
            "verify master" => Event::Ref(false),
            _ => return (run, asked),
        };
        asked = text(run.step(event));
    }
}

/// A run that has got its graph and the variable, and what is asked then.
fn with_variable(args: Affected, value: Option<&str>) -> (AffectedRun, String) {
    let (mut run, asked) = with_graph(args);
    assert_eq!(asked, "read variable");
    let asked = text(run.step(Event::Variable(value.map(|v| v.to_string()))));
    (run, asked)
}

#[test]
fn all_projects_need_no_base() {
    for value in [None, Some("dev")] {
        let mut a = args();
        a.all = true;
        a.exclude = vec!["//doc".into()];
        let (_, asked) = with_variable(a, value);
        assert_eq!(asked, "lines //app //lib");

        let mut a = args();
        a.all = true;
        a.format = AffectedFormat::Tasks;
        a.target = Some("build".into());
        let (mut run, asked) = with_variable(a, value);
        assert_eq!(asked, "tasks build");
        assert_eq!(text(run.step(Event::Tasks(vec!["//lib:build".into()]))), "lines //lib:build");
    }

    let mut a = args();
    a.all = true;
    a.format = AffectedFormat::Json;
    let (_, asked) = without_defaults(a);
    assert_eq!(asked, "report main HEAD //app //doc //lib");
}

#[test]
fn given_files_need_no_base() {
    for value in [None, Some("dev")] {
        for format in [AffectedFormat::Ids, AffectedFormat::Tasks] {
            let mut a = args();
            a.files = vec!["lib/x".into()];
            a.format = format;
            let (_, asked) = with_variable(a, value);
            assert_eq!(asked, "resolve lib/x");
        }
    }

    let mut a = args();
    a.files = vec!["lib/x".into()];
    a.format = AffectedFormat::Json;
    let (mut run, asked) = without_defaults(a);
    assert_eq!(asked, "resolve lib/x");
    assert_eq!(text(run.step(Event::Files(vec!["lib/x".into()]))), "report main HEAD //app //lib");
}

const REFUSED: &str =
    "fail MISE_AFFECTED_BASE value \"-v\" starts with '-'; refusing to forward to git";

#[test]
fn flag_like_variable_is_refused_for_all_projects() {
    for format in [AffectedFormat::Ids, AffectedFormat::Json, AffectedFormat::Tasks] {
        for target in [None, Some("build".to_string())] {
            let mut a = args();
            a.all = true;
            a.format = format;
            a.target = target;
            assert_eq!(with_variable(a, Some("-v")).1, REFUSED);
        }
    }
}

#[test]
fn flag_like_variable_is_refused_for_given_files() {
    for format in [AffectedFormat::Ids, AffectedFormat::Json, AffectedFormat::Tasks] {
        let mut a = args();
        a.files = vec!["lib/x".into()];
        a.format = format;
        assert_eq!(with_variable(a, Some("-v")).1, REFUSED);
    }
}

/// Answers everything that a run asks, and gives what it puts out.
fn whole_run(args: Affected, variable: Option<&str>) -> Action {
    let mut run = args.run();
    let mut event = Event::Begin;
    loop {
        event = match run.step(event) {
            Action::LoadGraph => Event::Graph(Some(graph())),
            Action::ReadBaseVariable => Event::Variable(variable.map(|v| v.to_string())),
            Action::AskRepository => Event::Repository(true),
            Action::VerifyRef(name) => Event::Ref(name != "main"),
            Action::FindAncestor { .. } => Event::Ancestor(true),
            Action::DiffFiles { .. } => Event::Files(vec!["lib/x".into()]),
            Action::ResolveFiles(files) => Event::Files(files),
            Action::LoadTasks(_) => {
                Event::Tasks(vec!["//app:build".into(), "//lib:build".into(), "//doc:build".into()])
            }
            end => return end,
        };
    }
}

#[test]
fn report_lists_what_the_ids_are_listed_for() {
    for (all, files) in [(false, vec![]), (true, vec![]), (false, vec!["doc/x".to_string()])] {
        for (variable, base) in [(None, "master"), (Some("dev"), "dev")] {
            for target in [None, Some("build".to_string())] {
                let run = |format| {
                    let mut a = args();
                    a.all = all;
                    a.files = files.clone();
                    a.exclude = vec!["//app".into()];
                    a.target = target.clone();
                    a.format = format;
                    whole_run(a, variable)
                };
                let Action::Finish(Output::Lines(ids)) = run(AffectedFormat::Ids) else {
                    panic!("no ids");
                };
                let Action::Finish(Output::Report(report)) = run(AffectedFormat::Json) else {
                    panic!("no report");
                };
                assert!(!ids.is_empty());
                assert_eq!(report.schema, "mise-affected-experimental");
                assert_eq!(report.version, 1);
                assert_eq!(report.base, base);
                assert_eq!(report.head, "HEAD");
                assert_eq!(report.projects, ids);
                let named = target.as_ref().map(|_| ids.iter().map(|id| format!("{id}:build")).collect());
                assert_eq!(report.target_tasks, named);
            }
        }
    }
}

#[test]
fn report_of_all_projects_names_the_base_that_is_found() {
    let report = || {
        let mut a = args();
        a.all = true;
        a.format = AffectedFormat::Json;
        let (run, asked) = with_graph(a);
        assert_eq!(asked, "read variable");
        run
    };
    assert_eq!(
        text(report().step(Event::Variable(Some("dev".into())))),
        "report dev HEAD //app //doc //lib"
    );
    let mut run = report();
    run.step(Event::Variable(None));
    run.step(Event::Repository(true));
    run.step(Event::Ref(false));
    assert_eq!(text(run.step(Event::Ref(true))), "report master HEAD //app //doc //lib");
    let mut run = report();
    run.step(Event::Variable(None));
    assert_eq!(text(run.step(Event::Repository(false))), "report main HEAD //app //doc //lib");
}

#[test]
fn only_a_diff_fails_without_a_base() {
    let (_, asked) = without_defaults(args());
    assert!(asked.starts_with("fail could not determine default base ref"), "{asked}");
}
