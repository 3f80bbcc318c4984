//! The readers of the configuration formats, and what they share.
use project_graph::reader::ContributedEdge;
use project_graph::reader::ContributedProject;
use project_graph::reader::EdgeEndpoint;
use project_graph::reader::MonorepoConfigReader;
use project_graph::reader::ReaderContext;
use project_graph::reader::ReaderError;
use project_graph::reader::ResolutionView;
use project_graph::readers::accepted_globs;
use project_graph::readers::expand_workspace_globs;
use project_graph::readers::filter_members_by_config_roots;
use project_graph::readers::is_safe_glob_pattern;
use project_graph::readers::mise_reader::MiseDirectory;
use project_graph::readers::mise_reader::MiseProjectSection;
use project_graph::readers::mise_reader::MiseReader;
use project_graph::readers::npm_reader::NpmReader;
use project_graph::readers::npm_reader::WorkspacesField;
use project_graph::readers::nx_reader::NxDirectory;
use project_graph::readers::nx_reader::NxReader;
use project_graph::readers::nx_reader::ProjectJson;
use project_graph::readers::pnpm_reader::PnpmReader;
use project_graph::readers::turbo_reader::PipelineEntry;
use project_graph::readers::turbo_reader::TurboDirectory;
use project_graph::readers::turbo_reader::TurboJson;
use project_graph::readers::turbo_reader::TurboReader;
use project_graph::readers::walk_for_markers;
use project_graph::readers::walk_starts;
use project_graph::readers::workspace::PackageJson;
use project_graph::readers::workspace::Workspace;
use project_graph::readers::workspace::WorkspaceMember;
use project_graph::readers::GlobEntry;
use project_graph::readers::DEFAULT_WALK_DEPTH;
use project_graph::Project;
use project_graph::ProjectGraph;
use project_graph::ProjectSource;

fn strings(list: &[&str]) -> Vec<String> {
    list.iter().map(|s| s.to_string()).collect()
}

fn ctx(roots: Option<&[&str]>) -> ReaderContext {
    ReaderContext::new("/tmp/mono".to_string(), roots.map(strings))
}

/// A graph with projects that have a name in the namespace of a source.
fn named(projects: &[(&str, ProjectSource, &str)]) -> ProjectGraph {
    let mut g = ProjectGraph::new("/tmp/mono".to_string());
    for (id, source, name) in projects {
        let root = id.trim_start_matches("//").to_string();
        let mut p = Project::new(id.to_string(), root, source.clone());
        p.foreign_names.insert(source.clone(), name.to_string());
        g.upsert_project(p);
    }
    g
}

fn edge_text(edge: &ContributedEdge) -> String {
    let end = |e: &EdgeEndpoint| match e {
        EdgeEndpoint::Path(path) => format!("path {path}"),
        EdgeEndpoint::ForeignName { source, name } => format!("{} {name}", source.to_string()),
        EdgeEndpoint::Id(id) => format!("id {id}"),
    };
    format!("{} -> {}", end(&edge.from), end(&edge.to))
}

fn edges_of<R: MonorepoConfigReader>(reader: &R, ctx: &ReaderContext, g: &ProjectGraph) -> Vec<String> {
    let view = ResolutionView::new(g);
    reader.collect_edges(ctx, &view).unwrap().iter().map(edge_text).collect()
}

fn project_text(p: &ContributedProject) -> String {
    format!(
        "{} {} {:?} {:?} {:?}",
        p.source.to_string(),
        p.path_root,
        p.foreign_name,
        p.sources,
        p.tags
    )
}

fn projects_of<R: MonorepoConfigReader>(reader: &R, ctx: &ReaderContext) -> Vec<String> {
    reader.collect_projects(ctx).unwrap().iter().map(project_text).collect()
}

#[test]
fn is_safe_glob_pattern_rejects_unsafe() {
    assert!(!is_safe_glob_pattern(""));
    assert!(!is_safe_glob_pattern("/etc/*"));
    assert!(!is_safe_glob_pattern("../../etc"));
    assert!(!is_safe_glob_pattern("apps/../../etc"));
    assert!(is_safe_glob_pattern("apps/*"));
    assert!(is_safe_glob_pattern("packages/**"));
}

#[test]
fn expand_workspace_globs_rejects_absolute_patterns() {
    let bad = vec!["/etc/*".to_string()];
    let result = accepted_globs("/tmp/mono", &bad);
    assert!(result.is_empty(), "absolute glob should be rejected");
    assert!(expand_workspace_globs("/tmp/mono", &vec![]).is_empty());
}

#[test]
fn expand_workspace_globs_rejects_parent_dir_patterns() {
    let bad = vec!["../../etc/*".to_string()];
    let result = accepted_globs("/tmp/mono", &bad);
    assert!(result.is_empty(), "parent-dir glob should be rejected");
}

fn entry(path: &str, canonical: &str, is_dir: bool, has_package_json: bool) -> GlobEntry {
    GlobEntry {
        path: path.to_string(),
        canonical: canonical.to_string(),
        is_dir,
        has_package_json,
    }
}

#[test]
fn expand_workspace_globs_finds_workspace_members() {
    let patterns = vec!["packages/*".to_string()];
    assert_eq!(accepted_globs("/tmp/mono", &patterns), vec!["/tmp/mono/packages/*"]);
    let entries = vec![entry("/tmp/mono/packages/foo", "/tmp/mono/packages/foo", true, true)];
    let members = expand_workspace_globs("/tmp/mono", &entries);
    assert_eq!(members.len(), 1);
    assert!(members[0].ends_with("packages/foo"));
}

#[test]
fn accepted_globs_skip_exclusions_and_stay_inside() {
    let patterns = strings(&["b/*", "!b/c", "", "a/..", "./a/*", "!../x", "..a"]);
    assert_eq!(
        accepted_globs("/tmp/mono", &patterns),
        vec!["/tmp/mono/b/*", "/tmp/mono/./a/*", "/tmp/mono/..a"]
    );
    for glob in accepted_globs("/tmp/mono", &patterns) {
        assert!(std::path::Path::new(&glob).starts_with("/tmp/mono"));
    }
}

#[test]
fn workspace_members_are_confined_and_sorted() {
    let entries = vec![
        entry("/tmp/mono/b", "/tmp/mono/b", true, true),
        entry("/tmp/mono/file", "/tmp/mono/file", false, true),
        entry("/tmp/mono/bare", "/tmp/mono/bare", true, false),
        entry("/tmp/mono/link", "/etc", true, true),
        entry("/tmp/mono/a", "/tmp/mono/c", true, true),
        entry("/tmp/mono/b/", "/tmp/mono/b", true, true),
        entry("/tmp/mono/lookalike", "/tmp/monolith", true, true),
    ];
    assert_eq!(expand_workspace_globs("/tmp/mono", &entries), vec!["/tmp/mono/a", "/tmp/mono/b"]);
}

#[test]
fn filter_members_by_config_roots_passes_through_when_unset() {
    let members = vec!["/tmp/mono/a".to_string(), "/tmp/mono/b".to_string()];
    assert_eq!(filter_members_by_config_roots(members.clone(), &ctx(None)), members);
    assert_eq!(filter_members_by_config_roots(members.clone(), &ctx(Some(&[]))), members);
}

#[test]
fn filter_members_by_config_roots_drops_outside_roots() {
    let ctx = ctx(Some(&["/tmp/mono/apps"]));
    let members = strings(&["/tmp/mono/apps/web", "/tmp/mono/vendor/legacy"]);
    let kept = filter_members_by_config_roots(members, &ctx);
    assert_eq!(kept.len(), 1);
    assert!(kept[0].ends_with("apps/web"));
    let exact = strings(&["/tmp/mono/apps", "/tmp/mono/apps-old"]);
    assert_eq!(filter_members_by_config_roots(exact, &ctx), vec!["/tmp/mono/apps"]);
}

#[test]
fn workspace_globs_supports_array_and_object_forms() {
    let arr = WorkspacesField::Array(vec!["packages/*".into()]);
    assert_eq!(NpmReader::workspace_globs(&arr), &["packages/*"]);
    let obj = WorkspacesField::Object { packages: vec!["apps/*".into()] };
    assert_eq!(NpmReader::workspace_globs(&obj), &["apps/*"]);
    let none = WorkspacesField::Unset;
    assert!(NpmReader::workspace_globs(&none).is_empty());
}

#[test]
fn walk_for_markers_finds_dotfile_mise_toml() {
    let files = strings(&["/tmp/mono/apps/web/.mise.toml", "/tmp/mono/README.md"]);
    let hits = walk_for_markers(&files, &MiseReader::markers());
    assert_eq!(hits, vec!["/tmp/mono/apps/web"]);
}

#[test]
fn walk_for_markers_finds_plain_mise_toml() {
    let files = strings(&["/tmp/mono/libs/shared/mise.toml"]);
    let hits = walk_for_markers(&files, &["mise.toml", ".mise.toml"]);
    assert!(hits.contains(&"/tmp/mono/libs/shared".to_string()));
}

#[test]
fn walk_for_markers_sorts_and_drops_repetitions() {
    let files = strings(&[
        "/tmp/mono/b/mise.toml",
        "/tmp/mono/a/.mise.toml",
        "/tmp/mono/b/.mise.toml",
        "/tmp/mono/c/mise.toml.bak",
        "/tmp/mono/a/c/mise.toml",
        "/tmp/mono/a-b/mise.toml",
    ]);
    assert_eq!(
        walk_for_markers(&files, &MiseReader::markers()),
        vec!["/tmp/mono/a", "/tmp/mono/a/c", "/tmp/mono/a-b", "/tmp/mono/b"]
    );
    assert_eq!(NxReader::markers(), ["project.json"]);
    assert_eq!(TurboReader::markers(), ["turbo.json"]);
    assert_eq!(DEFAULT_WALK_DEPTH, 8);
}

#[test]
fn walks_start_at_the_configured_roots() {
    assert_eq!(walk_starts(&ctx(None)), vec!["/tmp/mono"]);
    assert_eq!(walk_starts(&ctx(Some(&[]))), vec!["/tmp/mono"]);
    assert_eq!(walk_starts(&ctx(Some(&["/tmp/mono/b", "/tmp/mono/a"]))), vec!["/tmp/mono/b", "/tmp/mono/a"]);
}

fn section(name: Option<&str>, depends: &[&str], implicit: &[&str]) -> MiseProjectSection {
    MiseProjectSection {
        name: name.map(|n| n.to_string()),
        sources: strings(&["src/**"]),
        tags: strings(&["t"]),
        depends: strings(depends),
        implicit_dependencies: strings(implicit),
    }
}

#[test]
fn mise_reader_takes_the_first_section() {
    let reader = MiseReader {
        found: vec![
            MiseDirectory { dir: "/tmp/mono/a".into(), sections: vec![None, Some(section(Some("a"), &[], &[]))] },
            MiseDirectory {
                dir: "/tmp/mono/b".into(),
                sections: vec![Some(section(None, &[], &[])), Some(section(Some("hidden"), &[], &[]))],
            },
            MiseDirectory { dir: "/tmp/mono/c".into(), sections: vec![None, None] },
        ],
    };
    assert_eq!(
        projects_of(&reader, &ctx(None)),
        vec![
            "mise /tmp/mono/a Some(\"a\") [\"src/**\"] [\"t\"]",
            "mise /tmp/mono/b None [\"src/**\"] [\"t\"]",
        ]
    );
    assert_eq!(reader.id(), "mise");
    assert!(MiseReader::read_section(&vec![None]).is_none());
}

#[test]
fn mise_dependencies_are_ids_names_or_paths() {
    let g = named(&[("//apps/web", ProjectSource::Mise, "web")]);
    let reader = MiseReader {
        found: vec![MiseDirectory {
            dir: "/tmp/mono/a".into(),
            sections: vec![Some(section(None, &["//libs/shared", "web"], &["libs/x", "/abs/y"]))],
        }],
    };
    assert_eq!(
        edges_of(&reader, &ctx(None), &g),
        vec![
            "path /tmp/mono/a -> id //libs/shared",
            "path /tmp/mono/a -> mise web",
            "path /tmp/mono/a -> path /tmp/mono/libs/x",
            "path /tmp/mono/a -> path /abs/y",
        ]
    );
}

#[test]
fn nx_reader_contributes_and_refers() {
    let g = named(&[("//libs/shared", ProjectSource::Nx, "shared-lib")]);
    let reader = NxReader {
        found: vec![
            NxDirectory {
                dir: "/tmp/mono/api".into(),
                parsed: Some(ProjectJson {
                    name: Some("api".into()),
                    tags: strings(&["backend"]),
                    implicit_dependencies: strings(&["shared-lib", "!web", "libs/other"]),
                    source_root: Some("src".into()),
                }),
            },
            NxDirectory { dir: "/tmp/mono/broken".into(), parsed: None },
            NxDirectory {
                dir: "/tmp/mono/plain".into(),
                parsed: Some(ProjectJson {
                    name: None,
                    tags: vec![],
                    implicit_dependencies: vec![],
                    source_root: None,
                }),
            },
        ],
    };
    assert_eq!(
        projects_of(&reader, &ctx(None)),
        vec![
            "nx /tmp/mono/api Some(\"api\") [\"src/**/*\"] [\"backend\"]",
            "nx /tmp/mono/plain None [] []",
        ]
    );
    assert_eq!(
        edges_of(&reader, &ctx(None), &g),
        vec![
            "path /tmp/mono/api -> nx shared-lib",
            "path /tmp/mono/api -> path /tmp/mono/libs/other",
        ]
    );
    assert_eq!(reader.id(), "nx");
}

fn turbo(entries: &[(&str, &[&str])]) -> TurboJson {
    TurboJson {
        pipeline: entries
            .iter()
            .map(|(task, refs)| (task.to_string(), PipelineEntry { depends_on: strings(refs) }))
            .collect(),
    }
}

#[test]
fn collect_projects_skips_root_turbo_json() {
    let reader = TurboReader {
        root: Some(turbo(&[])),
        found: vec![
            TurboDirectory { dir: "/tmp/mono".into(), parsed: Some(turbo(&[])) },
            TurboDirectory { dir: "/tmp/mono/apps/web".into(), parsed: Some(turbo(&[])) },
        ],
    };
    let projects = reader.collect_projects(&ctx(None)).unwrap();
    assert_eq!(projects.len(), 1);
    assert!(projects[0].path_root.ends_with("apps/web"));
    assert_eq!(projects[0].foreign_name.as_deref(), Some("web"));
}

#[test]
fn turbo_root_references_fan_out() {
    let g = named(&[
        ("//a", ProjectSource::NpmWorkspace, "a"),
        ("//b", ProjectSource::PnpmWorkspace, "b"),
        ("//c", ProjectSource::NpmWorkspace, "c"),
        ("//d", ProjectSource::Mise, "d"),
    ]);
    let reader = TurboReader {
        root: Some(turbo(&[("build", &["^build", "c#build", "#x", "lint", "d#build", "^c#build", "b#t#u"])])),
        found: vec![],
    };
    assert_eq!(
        edges_of(&reader, &ctx(None), &g),
        vec!["id //a -> id //c", "id //b -> id //c", "id //a -> id //b", "id //c -> id //b"]
    );
    assert_eq!(reader.id(), "turbo");
}

#[test]
fn turbo_package_references_come_from_the_package() {
    let g = named(&[
        ("//a", ProjectSource::NpmWorkspace, "a"),
        ("//c", ProjectSource::NpmWorkspace, "c"),
    ]);
    let found = vec![
        TurboDirectory { dir: "/tmp/mono/".into(), parsed: Some(turbo(&[("x", &["a#x"])])) },
        TurboDirectory { dir: "/tmp/mono/a".into(), parsed: Some(turbo(&[("x", &["c#x"]), ("y", &["gone#y"])])) },
        TurboDirectory { dir: "/tmp/mono/c".into(), parsed: None },
    ];
    let with_root = TurboReader { root: Some(turbo(&[])), found: found.clone() };
    assert_eq!(edges_of(&with_root, &ctx(None), &g), vec!["path /tmp/mono/a -> id //c"]);
    let without_root = TurboReader { root: None, found };
    assert!(edges_of(&without_root, &ctx(None), &g).is_empty());
    assert_eq!(projects_of(&without_root, &ctx(None)), vec!["turbo /tmp/mono/a Some(\"a\") [] []"]);
}

#[test]
fn turbo_package_that_refers_to_itself_gets_no_edge() {
    let g = named(&[
        ("//apps/web", ProjectSource::NpmWorkspace, "@org/web"),
        ("//apps/api", ProjectSource::NpmWorkspace, "@org/api"),
    ]);
    let own = turbo(&[("build", &["@org/web#codegen", "@org/api#build"])]);
    let found = vec![
        TurboDirectory { dir: "/tmp/mono/apps/web/".into(), parsed: Some(own.clone()) },
        TurboDirectory { dir: "/tmp/mono/gone".into(), parsed: Some(own) },
    ];
    let reader = TurboReader { root: Some(turbo(&[])), found };
    assert_eq!(
        edges_of(&reader, &ctx(None), &g),
        vec![
            "path /tmp/mono/apps/web/ -> id //apps/api",
            "path /tmp/mono/gone -> id //apps/web",
            "path /tmp/mono/gone -> id //apps/api",
        ]
    );
}

fn members() -> Vec<WorkspaceMember> {
    vec![
        WorkspaceMember {
            path: "/tmp/mono/apps/web".into(),
            package: Some(PackageJson {
                name: Some("@org/web".into()),
                dependencies: strings(&["@org/shared", "react"]),
                dev_dependencies: strings(&["@org/tool"]),
                peer_dependencies: strings(&["@org/shared"]),
            }),
        },
        WorkspaceMember { path: "/tmp/mono/libs/odd".into(), package: None },
    ]
}

#[test]
fn npm_reader_links_members() {
    let g = named(&[
        ("//libs/shared", ProjectSource::NpmWorkspace, "@org/shared"),
        ("//libs/tool", ProjectSource::NpmWorkspace, "@org/tool"),
        ("//libs/react", ProjectSource::PnpmWorkspace, "react"),
    ]);
    let reader = NpmReader { workspace: Workspace::Members(members()) };
    assert_eq!(
        projects_of(&reader, &ctx(None)),
        vec![
            "npm-workspace /tmp/mono/apps/web Some(\"@org/web\") [] []",
            "npm-workspace /tmp/mono/libs/odd None [] []",
        ]
    );
    assert_eq!(
        edges_of(&reader, &ctx(None), &g),
        vec![
            "path /tmp/mono/apps/web -> npm-workspace @org/shared",
            "path /tmp/mono/apps/web -> npm-workspace @org/tool",
            "path /tmp/mono/apps/web -> npm-workspace @org/shared",
        ]
    );
    let roots = ctx(Some(&["/tmp/mono/libs"]));
    assert_eq!(projects_of(&reader, &roots), vec!["npm-workspace /tmp/mono/libs/odd None [] []"]);
    assert!(edges_of(&reader, &roots, &g).is_empty());
    assert_eq!(reader.id(), "npm-workspace");
}

#[test]
fn pnpm_reader_uses_its_own_namespace() {
    let g = named(&[
        ("//libs/shared", ProjectSource::NpmWorkspace, "@org/shared"),
        ("//libs/react", ProjectSource::PnpmWorkspace, "react"),
    ]);
    let reader = PnpmReader { workspace: Workspace::Members(members()) };
    assert_eq!(
        edges_of(&reader, &ctx(None), &g),
        vec!["path /tmp/mono/apps/web -> pnpm-workspace react"]
    );
    assert!(projects_of(&reader, &ctx(None))[0].starts_with("pnpm-workspace /tmp/mono/apps/web"));
    assert_eq!(reader.id(), "pnpm-workspace");
}

#[test]
fn missing_and_failed_workspaces() {
    let g = named(&[]);
    let view = ResolutionView::new(&g);
    let missing = PnpmReader { workspace: Workspace::Missing };
    assert!(missing.collect_projects(&ctx(None)).unwrap().is_empty());
    assert!(missing.collect_edges(&ctx(None), &view).unwrap().is_empty());
    let failed = NpmReader {
        workspace: Workspace::Failed(ReaderError { message: "bad glob".into() }),
    };
    assert_eq!(failed.collect_projects(&ctx(None)).unwrap_err().message, "bad glob");
    assert_eq!(failed.collect_edges(&ctx(None), &view).unwrap_err().message, "bad glob");
}
