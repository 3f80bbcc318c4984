//! Refs, task names, files, and output of the affected command.
use project_graph::affected::absolute_files;
use project_graph::affected::default_base;
use project_graph::affected::output;
use project_graph::affected::projects_of_tasks;
use project_graph::affected::resolve_user_files;
use project_graph::affected::split_monorepo_task_name;
use project_graph::affected::validate_ref;
use project_graph::affected::AffectedFormat;
use project_graph::affected::Output;
use project_graph::affected::AFFECTED_REPORT_SCHEMA;
use project_graph::ordered::OrderedSet;

#[test]
fn split_monorepo_task_name_extracts_project_and_task() {
    assert_eq!(
        split_monorepo_task_name("//apps/web:build"),
        Some(("//apps/web".to_string(), "build".to_string()))
    );
    assert_eq!(
        split_monorepo_task_name("//libs/shared:test:unit"),
        Some(("//libs/shared".to_string(), "test:unit".to_string()))
    );
}

#[test]
fn split_monorepo_task_name_rejects_non_monorepo() {
    assert!(split_monorepo_task_name("build").is_none());
    assert!(split_monorepo_task_name("//apps/web").is_none());
}

#[test]
fn split_gives_back_what_was_put_together() {
    for (id, task) in [("//a", "b"), ("//", ""), ("//a/b", ":x"), ("///", "y")] {
        assert_eq!(
            split_monorepo_task_name(&format!("{id}:{task}")),
            Some((id.to_string(), task.to_string()))
        );
    }
    assert_eq!(split_monorepo_task_name("//:x"), Some(("//".to_string(), "x".to_string())));
    assert!(split_monorepo_task_name("/a:b").is_none());
    assert!(split_monorepo_task_name("").is_none());
}

#[test]
fn validate_ref_rejects_leading_dash() {
    assert!(validate_ref(Some("--output=/tmp/pwn"), "--base").is_err());
    assert!(validate_ref(Some("-suspicious"), "--head").is_err());
}

#[test]
fn validate_ref_accepts_real_refs() {
    assert!(validate_ref(Some("main"), "--base").is_ok());
    assert!(validate_ref(Some("origin/main"), "--base").is_ok());
    assert!(validate_ref(Some("HEAD~3"), "--head").is_ok());
    assert!(validate_ref(None, "--base").is_ok());
}

#[test]
fn rejected_ref_is_quoted_in_the_message() {
    let err = validate_ref(Some("-a\"b"), "--base").unwrap_err();
    assert_eq!(
        err.message(),
        "--base value \"-a\\\"b\" starts with '-'; refusing to forward to git"
    );
    assert!(validate_ref(Some(""), "--base").is_ok());
    assert!(validate_ref(Some("a-b"), "--base").is_ok());
}

#[test]
fn default_base_returns_master_when_main_missing() {
    assert_eq!(default_base(true, false, true).unwrap(), "master");
}

#[test]
fn default_base_errs_when_no_default_branch() {
    let err = default_base(true, false, false).unwrap_err().message();
    assert!(err.contains("could not determine default base ref"));
}

#[test]
fn default_base_returns_main_for_non_repo() {
    assert_eq!(default_base(false, false, false).unwrap(), "main");
}

#[test]
fn default_base_prefers_main() {
    assert_eq!(default_base(true, true, true).unwrap(), "main");
    assert_eq!(default_base(false, false, true).unwrap(), "main");
}

#[test]
fn resolve_user_files_strips_monorepo_root_for_relative_paths() {
    let files = vec!["/tmp/mono/a.txt".to_string()];
    let resolved = resolve_user_files("/tmp/mono", &files);
    assert_eq!(resolved.len(), 1);
    assert_eq!(resolved[0], "a.txt");
}

#[test]
fn resolve_user_files_warns_and_drops_outside_root() {
    let files = vec!["/tmp/other/escape.txt".to_string()];
    let resolved = resolve_user_files("/tmp/mono", &files);
    assert!(resolved.is_empty());
}

#[test]
fn resolve_user_files_handles_canonicalized_root_with_symlinked_tmp() {
    let files = vec!["/private/tmp/mono/apps/web/main.ts".to_string()];
    let resolved = resolve_user_files("/private/tmp/mono", &files);
    assert_eq!(resolved, vec!["apps/web/main.ts"]);
}

#[test]
fn files_are_seen_from_the_current_directory() {
    let files = vec!["a.txt".to_string(), "/abs/b.txt".to_string(), "../c".to_string()];
    assert_eq!(
        absolute_files("/tmp/mono/apps", &files),
        vec!["/tmp/mono/apps/a.txt", "/abs/b.txt", "/tmp/mono/apps/../c"]
    );
    let mixed = vec!["/x".to_string(), "/tmp/mono".to_string(), "/tmp/mono/z".to_string()];
    assert_eq!(resolve_user_files("/tmp/mono", &mixed), vec!["", "z"]);
}

#[test]
fn tasks_name_their_projects() {
    let tasks: Vec<String> =
        ["//b:build", "build", "//a:build", "//b:build:x"].iter().map(|t| t.to_string()).collect();
    assert_eq!(projects_of_tasks(&tasks).into_items(), vec!["//a", "//b"]);
    assert!(projects_of_tasks(&vec![]).is_empty());
}

fn ids() -> OrderedSet<String> {
    let mut set = OrderedSet::new();
    set.insert("//b".to_string());
    set.insert("//a".to_string());
    set
}

#[test]
fn ids_and_tasks_are_lines() {
    let build = Some("build".to_string());
    let lines = |out: Output| match out {
        Output::Lines(lines) => lines,
        Output::Report(_) => unreachable!(),
    };
    assert_eq!(lines(output(AffectedFormat::Ids, &build, ids(), "m", "h")), vec!["//a", "//b"]);
    assert_eq!(
        lines(output(AffectedFormat::Tasks, &build, ids(), "m", "h")),
        vec!["//a:build", "//b:build"]
    );
    assert_eq!(lines(output(AffectedFormat::Tasks, &None, ids(), "m", "h")), vec!["//a", "//b"]);
}

#[test]
fn json_is_a_report() {
    let report = |target: Option<String>| match output(AffectedFormat::Json, &target, ids(), "main", "HEAD") {
        Output::Report(report) => report,
        Output::Lines(_) => unreachable!(),
    };
    let with = report(Some("test".to_string()));
    assert_eq!(with.schema, "mise-affected-experimental");
    assert_eq!(with.schema, AFFECTED_REPORT_SCHEMA);
    assert_eq!(with.version, 1);
    assert_eq!(with.base, "main");
    assert_eq!(with.head, "HEAD");
    assert_eq!(with.projects, vec!["//a", "//b"]);
    assert_eq!(with.target_tasks, Some(vec!["//a:test".to_string(), "//b:test".to_string()]));
    assert_eq!(report(None).target_tasks, None);
}
