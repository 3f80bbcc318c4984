//! Assembling a graph from readers.
use project_graph::builder::assemble;
use project_graph::builder::build_project_graph;
use project_graph::builder::default_readers;
use project_graph::builder::BuildError;
use project_graph::reader::ContributedEdge;
use project_graph::reader::ContributedProject;
use project_graph::reader::EdgeEndpoint;
use project_graph::reader::MonorepoConfigReader;
use project_graph::reader::ReaderContext;
use project_graph::reader::ReaderError;
use project_graph::reader::ResolutionView;
use project_graph::readers::mise_reader::MiseReader;
use project_graph::readers::npm_reader::NpmReader;
use project_graph::readers::nx_reader::NxDirectory;
use project_graph::readers::nx_reader::NxReader;
use project_graph::readers::nx_reader::ProjectJson;
use project_graph::readers::pnpm_reader::PnpmReader;
use project_graph::readers::turbo_reader::PipelineEntry;
use project_graph::readers::turbo_reader::TurboDirectory;
use project_graph::readers::turbo_reader::TurboJson;
use project_graph::readers::turbo_reader::TurboReader;
use project_graph::readers::workspace::PackageJson;
use project_graph::readers::workspace::Workspace;
use project_graph::readers::workspace::WorkspaceMember;
use project_graph::readers::DefaultReader;
use project_graph::NameCollision;
use project_graph::ProjectGraph;
use project_graph::ProjectSource;

/// Test reader that emits a fixed set of projects and edges.
struct StaticReader {
    id: &'static str,
    projects: Vec<ContributedProject>,
    edges: Vec<ContributedEdge>,
}

impl MonorepoConfigReader for StaticReader {
    fn id(&self) -> &'static str {
        self.id
    }

    fn collect_projects(&self, _ctx: &ReaderContext) -> Result<Vec<ContributedProject>, ReaderError> {
        Ok(self.projects.clone())
    }

    fn collect_edges(
        &self,
        _ctx: &ReaderContext,
        _view: &ResolutionView,
    ) -> Result<Vec<ContributedEdge>, ReaderError> {
        Ok(self.edges.clone())
    }
}

fn ctx_for(root: &str) -> ReaderContext {
    ReaderContext::new(root.to_string(), None)
}

fn contribution(source: ProjectSource, path: &str, name: Option<&str>) -> ContributedProject {
    ContributedProject {
        source,
        path_root: path.to_string(),
        foreign_name: name.map(|n| n.to_string()),
        sources: vec![],
        tags: vec![],
    }
}

fn ids(g: &ProjectGraph) -> Vec<String> {
    g.all_ids().into_items()
}

#[test]
fn two_pass_resolves_foreign_name_edge() {
    let nx_reader = StaticReader {
        id: "nx-test",
        projects: vec![contribution(ProjectSource::Nx, "/tmp/mono/apps/web", Some("web-shell"))],
        edges: vec![],
    };
    let turbo_reader = StaticReader {
        id: "turbo-test",
        projects: vec![contribution(ProjectSource::Turbo, "/tmp/mono/apps/api", None)],
        edges: vec![ContributedEdge {
            from: EdgeEndpoint::Path("/tmp/mono/apps/api".to_string()),
            to: EdgeEndpoint::ForeignName {
                source: ProjectSource::Nx,
                name: "web-shell".into(),
            },
        }],
    };
    let readers: Vec<Box<dyn MonorepoConfigReader>> =
        vec![Box::new(nx_reader), Box::new(turbo_reader)];
    let graph = build_project_graph(&ctx_for("/tmp/mono"), &readers).unwrap();
    let ids = ids(&graph);
    assert!(ids.contains(&"//apps/web".to_string()));
    assert!(ids.contains(&"//apps/api".to_string()));
    let affected = graph.transitive_dependents(&["//apps/web".into()]);
    assert!(
        affected.contains("//apps/api"),
        "api should be a transitive dependent of web via the foreign-name edge; got {affected:?}"
    );
}

#[test]
fn unresolvable_edge_is_dropped_silently() {
    let reader = StaticReader {
        id: "broken",
        projects: vec![contribution(ProjectSource::Mise, "/tmp/mono/a", None)],
        edges: vec![ContributedEdge {
            from: EdgeEndpoint::Path("/tmp/mono/a".to_string()),
            to: EdgeEndpoint::ForeignName {
                source: ProjectSource::Nx,
                name: "ghost".into(),
            },
        }],
    };
    let readers: Vec<Box<dyn MonorepoConfigReader>> = vec![Box::new(reader)];
    let graph = build_project_graph(&ctx_for("/tmp/mono"), &readers).unwrap();
    assert_eq!(graph.graph.edge_count(), 0);
}

#[test]
fn duplicate_id_merges_foreign_names() {
    let mise_reader = StaticReader {
        id: "mise-test",
        projects: vec![ContributedProject {
            source: ProjectSource::Mise,
            path_root: "/tmp/mono/apps/web".to_string(),
            foreign_name: Some("web".into()),
            sources: vec![],
            tags: vec!["frontend".into()],
        }],
        edges: vec![],
    };
    let nx_reader = StaticReader {
        id: "nx-test",
        projects: vec![ContributedProject {
            source: ProjectSource::Nx,
            path_root: "/tmp/mono/apps/web".to_string(),
            foreign_name: Some("web-shell".into()),
            sources: vec![],
            tags: vec!["nx-managed".into()],
        }],
        edges: vec![],
    };
    let readers: Vec<Box<dyn MonorepoConfigReader>> =
        vec![Box::new(mise_reader), Box::new(nx_reader)];
    let graph = build_project_graph(&ctx_for("/tmp/mono"), &readers).unwrap();
    assert_eq!(graph.graph.node_count(), 1);
    let p = graph.project(&"//apps/web".to_string()).unwrap();
    assert_eq!(p.foreign_names.get(&ProjectSource::Mise).unwrap(), "web");
    assert_eq!(p.foreign_names.get(&ProjectSource::Nx).unwrap(), "web-shell");
    assert!(p.tags.contains("frontend"));
    assert!(p.tags.contains("nx-managed"));
}

fn nx_directory(dir: &str, name: &str, tag: Option<&str>, deps: &[&str]) -> NxDirectory {
    NxDirectory {
        dir: dir.to_string(),
        parsed: Some(ProjectJson {
            name: Some(name.to_string()),
            tags: tag.map(|t| t.to_string()).into_iter().collect(),
            implicit_dependencies: deps.iter().map(|d| d.to_string()).collect(),
            source_root: None,
        }),
    }
}

fn member(path: &str, name: &str, deps: &[&str]) -> WorkspaceMember {
    WorkspaceMember {
        path: path.to_string(),
        package: Some(PackageJson {
            name: Some(name.to_string()),
            dependencies: deps.iter().map(|d| d.to_string()).collect(),
            dev_dependencies: vec![],
            peer_dependencies: vec![],
        }),
    }
}

fn turbo_file(references: &[&str]) -> TurboJson {
    TurboJson {
        pipeline: vec![(
            "build".to_string(),
            PipelineEntry {
                depends_on: references.iter().map(|r| r.to_string()).collect(),
            },
        )],
    }
}

/// A monorepo in several formats, with references across them.
fn mixed_readers() -> Vec<DefaultReader> {
    default_readers(
        MiseReader { found: vec![] },
        NxReader {
            found: vec![
                nx_directory("/tmp/mono/apps/api", "api", None, &["shared-lib"]),
                nx_directory("/tmp/mono/apps/web", "web-shell", Some("frontend"), &[]),
                nx_directory("/tmp/mono/libs/shared", "shared-lib", Some("lib"), &[]),
            ],
        },
        TurboReader {
            root: Some(TurboJson { pipeline: vec![] }),
            found: vec![
                TurboDirectory {
                    dir: "/tmp/mono".to_string(),
                    parsed: Some(TurboJson { pipeline: vec![] }),
                },
                TurboDirectory {
                    dir: "/tmp/mono/apps/api".to_string(),
                    parsed: Some(turbo_file(&["@org/shared#build"])),
                },
            ],
        },
        PnpmReader { workspace: Workspace::Missing },
        NpmReader {
            workspace: Workspace::Members(vec![
                member("/tmp/mono/apps/web", "@org/web", &["@org/shared"]),
                member("/tmp/mono/libs/shared", "@org/shared", &[]),
            ]),
        },
    )
}

#[test]
fn multi_format_coexist_resolves_cross_format_edges() {
    let graph = build_project_graph(&ctx_for("/tmp/mono"), &mixed_readers()).unwrap();

    let expected_ids = vec!["//apps/api", "//apps/web", "//libs/shared"];
    assert_eq!(ids(&graph), expected_ids, "unexpected project set");

    let shared = graph.project("//libs/shared").unwrap();
    assert_eq!(
        shared.foreign_names.get(&ProjectSource::Nx).map(String::as_str),
        Some("shared-lib")
    );
    assert_eq!(
        shared.foreign_names.get(&ProjectSource::NpmWorkspace).map(String::as_str),
        Some("@org/shared")
    );

    let affected_by_shared = graph.transitive_dependents(&["//libs/shared".into()]);
    assert!(affected_by_shared.contains("//apps/api"));
    assert!(affected_by_shared.contains("//apps/web"));
    assert_eq!(affected_by_shared.into_items(), expected_ids);

    // api depends on shared for two reasons, which make one edge.
    assert_eq!(graph.graph.edge_count(), 2);

    let affected_by_api = graph.transitive_dependents(&["//apps/api".into()]);
    assert_eq!(affected_by_api.into_items(), vec!["//apps/api"]);
}

#[test]
fn default_builds_agree() {
    let ctx = ctx_for("/tmp/mono");
    let a = build_project_graph(&ctx, &mixed_readers()).unwrap();
    let b = build_project_graph(&ctx, &mixed_readers()).unwrap();
    assert_eq!(a.to_dot(), b.to_dot());
}

#[test]
fn default_readers_come_in_order() {
    let names: Vec<&str> = mixed_readers().iter().map(|r| r.id()).collect();
    assert_eq!(names, vec!["mise", "nx", "turbo", "pnpm-workspace", "npm-workspace"]);
}

#[test]
fn contribution_outside_the_monorepo_is_skipped() {
    let reader = StaticReader {
        id: "stray",
        projects: vec![
            contribution(ProjectSource::Nx, "/elsewhere/foo", Some("stray")),
            contribution(ProjectSource::Nx, "/tmp/monolith", None),
            contribution(ProjectSource::Nx, "/tmp/mono", None),
        ],
        edges: vec![],
    };
    let graph = build_project_graph(&ctx_for("/tmp/mono"), &[reader]).unwrap();
    assert_eq!(ids(&graph), vec!["//"]);
    assert!(graph.resolve_by_foreign_name(&ProjectSource::Nx, "stray").is_none());
}

#[test]
fn contributed_name_leads_to_its_first_project() {
    let reader = StaticReader {
        id: "twins",
        projects: vec![
            contribution(ProjectSource::Nx, "/tmp/mono/a", Some("twin")),
            contribution(ProjectSource::Nx, "/tmp/mono/b", Some("twin")),
        ],
        edges: vec![],
    };
    let graph = build_project_graph(&ctx_for("/tmp/mono"), &[reader]).unwrap();
    let view = ResolutionView::new(&graph);
    let end = EdgeEndpoint::ForeignName { source: ProjectSource::Nx, name: "twin".into() };
    assert_eq!(view.resolve(&end).as_deref(), Some("//a"));
    assert_eq!(view.resolve(&EdgeEndpoint::Id("//b".into())).as_deref(), Some("//b"));
    assert_eq!(view.resolve(&EdgeEndpoint::Id("//c".into())), None);
    assert_eq!(view.resolve(&EdgeEndpoint::Path("/tmp/mono/b/".into())).as_deref(), Some("//b"));
    assert_eq!(view.resolve(&EdgeEndpoint::Path("/tmp/mono/c".into())), None);
    // Where projects share a name, the listing leads to the last of them.
    let names = view.names_for(&ProjectSource::Nx);
    assert_eq!(names.get(&"twin".to_string()).map(String::as_str), Some("//b"));
    assert!(view.names_for(&ProjectSource::Mise).get(&"twin".to_string()).is_none());
    assert_eq!(view.projects_by_source(&ProjectSource::Nx).len(), 2);
    assert!(view.projects_by_source(&ProjectSource::Turbo).is_empty());
    assert_eq!(view.project(&"//a".to_string()).unwrap().root, "/tmp/mono/a");
    assert!(view.project(&"//z".to_string()).is_none());
}

/// Test reader that fails in one of the passes.
struct FailingReader {
    in_first: bool,
}

impl MonorepoConfigReader for FailingReader {
    fn id(&self) -> &'static str {
        "failing"
    }

    fn collect_projects(&self, _ctx: &ReaderContext) -> Result<Vec<ContributedProject>, ReaderError> {
        if self.in_first {
            Err(ReaderError { message: "no projects".into() })
        } else {
            Ok(vec![])
        }
    }

    fn collect_edges(
        &self,
        _ctx: &ReaderContext,
        _view: &ResolutionView,
    ) -> Result<Vec<ContributedEdge>, ReaderError> {
        Err(ReaderError { message: "no edges".into() })
    }
}

#[test]
fn failure_of_a_reader_is_reported_with_its_name() {
    let ctx = ctx_for("/tmp/mono");
    let first = build_project_graph(&ctx, &[FailingReader { in_first: true }]).unwrap_err();
    assert_eq!(first.message(), "project reader 'failing'");
    assert!(matches!(first, BuildError::Projects { cause, .. } if cause.message == "no projects"));
    let second = build_project_graph(&ctx, &[FailingReader { in_first: false }]).unwrap_err();
    assert_eq!(second.message(), "project reader 'failing' edges");
    assert!(matches!(second, BuildError::Edges { cause, .. } if cause.message == "no edges"));
}

#[test]
fn capacity_errors_have_messages() {
    assert_eq!(
        BuildError::TooManyProjects.message(),
        "the project graph has too many projects"
    );
    assert_eq!(BuildError::TooManyEdges.message(), "the project graph has too many edges");
}

#[test]
fn path_outside_the_monorepo_leads_nowhere() {
    let projects = vec![contribution(ProjectSource::Nx, "/tmp/mono/etc", None)];
    let graph = assemble("/tmp/mono", projects, &vec![]).unwrap();
    let view = ResolutionView::new(&graph);
    assert_eq!(view.resolve(&EdgeEndpoint::Path("/etc".into())), None);
    assert_eq!(view.resolve(&EdgeEndpoint::Path("/tmp/mono/etc".into())).as_deref(), Some("//etc"));
}

#[test]
fn assembly_takes_contributions_and_edges() {
    let projects = vec![
        contribution(ProjectSource::Nx, "/tmp/mono/a", Some("a")),
        contribution(ProjectSource::Mise, "/tmp/mono/b", None),
        contribution(ProjectSource::Mise, "/tmp/mono/a", Some("other")),
    ];
    let edge = |from: &str, to: EdgeEndpoint| ContributedEdge {
        from: EdgeEndpoint::Path(from.to_string()),
        to,
    };
    let edges = vec![
        edge("/tmp/mono/b", EdgeEndpoint::ForeignName { source: ProjectSource::Nx, name: "a".into() }),
        edge("/tmp/mono/b", EdgeEndpoint::Id("//b".into())),
        edge("/tmp/mono/b", EdgeEndpoint::Id("//gone".into())),
        edge("/tmp/mono/a", EdgeEndpoint::Path("/tmp/mono/b".into())),
    ];
    let graph = assemble("/tmp/mono", projects, &edges).unwrap();
    assert_eq!(
        graph.to_dot(),
        "digraph {\n    0 [ label = \"//a\"]\n    1 [ label = \"//b\"]\n    1 -> 0 [ ]\n    0 -> 1 [ ]\n}\n"
    );
    assert!(graph.has_cycle());
}

/// Test reader that fails under its own name in both passes.
struct NamedFailure {
    id: &'static str,
    in_first: bool,
    in_second: bool,
}

impl MonorepoConfigReader for NamedFailure {
    fn id(&self) -> &'static str {
        self.id
    }

    fn collect_projects(&self, _ctx: &ReaderContext) -> Result<Vec<ContributedProject>, ReaderError> {
        if self.in_first {
            Err(ReaderError { message: self.id.into() })
        } else {
            Ok(vec![])
        }
    }

    fn collect_edges(
        &self,
        _ctx: &ReaderContext,
        _view: &ResolutionView,
    ) -> Result<Vec<ContributedEdge>, ReaderError> {
        if self.in_second {
            Err(ReaderError { message: self.id.into() })
        } else {
            Ok(vec![])
        }
    }
}

#[test]
fn first_reader_to_fail_is_reported() {
    let reader = |id, in_first, in_second| NamedFailure { id, in_first, in_second };
    let ctx = ctx_for("/tmp/mono");
    let readers = [reader("a", false, true), reader("b", true, true), reader("c", true, true)];
    let e = build_project_graph(&ctx, &readers).unwrap_err();
    assert_eq!(e.message(), "project reader 'b'");
    assert!(matches!(e, BuildError::Projects { cause, .. } if cause.message == "b"));
    let readers = [reader("a", false, false), reader("b", false, true), reader("c", false, true)];
    let e = build_project_graph(&ctx, &readers).unwrap_err();
    assert_eq!(e.message(), "project reader 'b' edges");
    assert!(matches!(e, BuildError::Edges { cause, .. } if cause.message == "b"));
}

#[test]
fn cycle_is_kept_and_flagged() {
    let edge = |from: &str, to: &str| ContributedEdge {
        from: EdgeEndpoint::Path(from.to_string()),
        to: EdgeEndpoint::Path(to.to_string()),
    };
    let reader = |edges| StaticReader {
        id: "mise-test",
        projects: vec![
            contribution(ProjectSource::Mise, "/tmp/mono/a", None),
            contribution(ProjectSource::Mise, "/tmp/mono/b", None),
        ],
        edges,
    };
    let ctx = ctx_for("/tmp/mono");
    let circle = vec![edge("/tmp/mono/a", "/tmp/mono/b"), edge("/tmp/mono/b", "/tmp/mono/a")];
    let graph = build_project_graph(&ctx, &[reader(circle)]).unwrap();
    assert_eq!(graph.graph.edge_count(), 2);
    assert!(graph.has_cycle());
    assert!(graph.cycle_found());
    let line = vec![edge("/tmp/mono/a", "/tmp/mono/b")];
    let mut graph = build_project_graph(&ctx, &[reader(line)]).unwrap();
    assert!(!graph.cycle_found());
    // The flag stays as it is until the next look.
    graph.add_edge("//b", "//a");
    assert!(graph.has_cycle() && !graph.cycle_found());
    graph.note_cycles();
    assert!(graph.cycle_found());
}

#[test]
fn claims_that_come_second_are_listed() {
    let reader = StaticReader {
        id: "names",
        projects: vec![
            contribution(ProjectSource::Nx, "/tmp/mono/a", Some("twin")),
            contribution(ProjectSource::Nx, "/tmp/mono/b", Some("twin")),
            contribution(ProjectSource::Nx, "/tmp/mono/b", Some("twin")),
            contribution(ProjectSource::Mise, "/tmp/mono/b", Some("twin")),
            contribution(ProjectSource::Nx, "/tmp/mono/a", Some("twin")),
            contribution(ProjectSource::Nx, "/tmp/mono/0", Some("twin")),
            contribution(ProjectSource::Mise, "/tmp/mono/c", Some("twin")),
            contribution(ProjectSource::Nx, "/elsewhere/x", Some("twin")),
        ],
        edges: vec![],
    };
    let graph = build_project_graph(&ctx_for("/tmp/mono"), &[reader]).unwrap();
    let collision = |source, id: &str| NameCollision {
        source,
        name: "twin".into(),
        id: id.to_string(),
    };
    assert_eq!(
        graph.name_collisions(),
        vec![
            collision(ProjectSource::Mise, "//c"),
            collision(ProjectSource::Nx, "//0"),
            collision(ProjectSource::Nx, "//b"),
        ]
    );
    let holder = |source| graph.resolve_by_foreign_name(&source, "twin").cloned();
    assert_eq!(holder(ProjectSource::Nx).as_deref(), Some("//a"));
    assert_eq!(holder(ProjectSource::Mise).as_deref(), Some("//b"));
    assert!(ProjectGraph::new("/tmp/mono".to_string()).name_collisions().is_empty());
}

#[test]
fn names_that_one_project_claims_agree() {
    let projects = vec![
        contribution(ProjectSource::Nx, "/tmp/mono/a", Some("one")),
        contribution(ProjectSource::Nx, "/tmp/mono/b", Some("two")),
        contribution(ProjectSource::Nx, "/tmp/mono/a", Some("one")),
        contribution(ProjectSource::Turbo, "/tmp/mono/b", Some("one")),
    ];
    let graph = assemble("/tmp/mono", projects, &vec![]).unwrap();
    assert!(graph.name_collisions().is_empty());
    let view = ResolutionView::new(&graph);
    for source in [ProjectSource::Nx, ProjectSource::Turbo] {
        let names = view.names_for(&source);
        assert!(names.len() > 0);
        for (name, id) in names.entries() {
            let end = EdgeEndpoint::ForeignName { source: source.clone(), name: name.clone() };
            assert_eq!(view.resolve(&end).as_ref(), Some(id));
        }
    }
}

/// A project that claims a second name of a source keeps its first one, and yet
/// the second name leads to it.
#[test]
fn second_name_of_a_project_leads_to_it() {
    let projects = vec![
        contribution(ProjectSource::Nx, "/tmp/mono/a", Some("one")),
        contribution(ProjectSource::Nx, "/tmp/mono/a", Some("two")),
        contribution(ProjectSource::Nx, "/tmp/mono/b", Some("two")),
    ];
    let graph = assemble("/tmp/mono", projects, &vec![]).unwrap();
    let view = ResolutionView::new(&graph);
    let end = EdgeEndpoint::ForeignName { source: ProjectSource::Nx, name: "two".into() };
    assert_eq!(view.resolve(&end).as_deref(), Some("//a"));
    let names = view.names_for(&ProjectSource::Nx);
    assert_eq!(names.get(&"two".to_string()).map(String::as_str), Some("//b"));
    assert_eq!(graph.name_collisions().len(), 1);
    assert_eq!(graph.name_collisions()[0].id, "//b");
}
