//! The wire format of a graph.
use project_graph::Project;
use project_graph::ProjectGraph;
use project_graph::ProjectSource;
use project_graph::WireProjectGraph;
use project_graph::WIRE_SCHEMA_EXPERIMENTAL;

#[test]
fn schema_marker_is_experimental_not_v1() {
    let g = ProjectGraph::new("/tmp/mono".to_string());
    let wire: WireProjectGraph = (&g).into();
    assert_eq!(wire.schema, "mise-project-graph-experimental");
    assert_eq!(wire.schema, WIRE_SCHEMA_EXPERIMENTAL);
}

#[test]
fn wire_format_snapshot() {
    let mut g = ProjectGraph::new("/tmp/mono".to_string());
    let mut web = Project::new("//apps/web".into(), "apps/web".to_string(), ProjectSource::Nx);
    web.foreign_names.insert(ProjectSource::Nx, "web-shell".into());
    web.foreign_names.insert(ProjectSource::NpmWorkspace, "@org/web".into());
    web.sources = vec!["src/**/*.ts".into()];
    web.tags.insert("frontend".into());
    g.upsert_project(web);
    let mut shared =
        Project::new("//libs/shared".into(), "libs/shared".to_string(), ProjectSource::NpmWorkspace);
    shared.foreign_names.insert(ProjectSource::NpmWorkspace, "@org/shared".into());
    g.upsert_project(shared);
    g.add_edge("//apps/web", "//libs/shared");
    let wire: WireProjectGraph = (&g).into();
    assert_eq!(wire.version, 1);
    assert_eq!(wire.monorepo_root, "/tmp/mono");
    assert_eq!(wire.projects.len(), 2);
    let web = &wire.projects[0];
    assert_eq!(web.id, "//apps/web");
    assert_eq!(web.root, "apps/web");
    assert_eq!(web.source.to_string(), "nx");
    assert_eq!(web.sources, vec!["src/**/*.ts"]);
    assert_eq!(web.tags, vec!["frontend"]);
    let names: Vec<(&str, &str)> =
        web.foreign_names.entries().iter().map(|(k, v)| (k.as_str(), v.as_str())).collect();
    assert_eq!(names, vec![("npm-workspace", "@org/web"), ("nx", "web-shell")]);
    let shared = &wire.projects[1];
    assert_eq!(shared.id, "//libs/shared");
    assert_eq!(shared.source.to_string(), "npm-workspace");
    assert!(shared.sources.is_empty());
    assert!(shared.tags.is_empty());
    assert_eq!(wire.edges.len(), 1);
    assert_eq!(wire.edges[0].from, "//apps/web");
    assert_eq!(wire.edges[0].to, "//libs/shared");
}

#[test]
fn projects_and_edges_are_sorted_for_stable_output() {
    let mut g = ProjectGraph::new("/tmp/mono".to_string());
    g.upsert_project(Project::new("//z".into(), "z".to_string(), ProjectSource::Mise));
    g.upsert_project(Project::new("//a".into(), "a".to_string(), ProjectSource::Mise));
    g.upsert_project(Project::new("//m".into(), "m".to_string(), ProjectSource::Mise));
    g.add_edge("//z", "//a");
    g.add_edge("//m", "//a");
    let wire: WireProjectGraph = (&g).into();
    let ids: Vec<&str> = wire.projects.iter().map(|p| p.id.as_str()).collect();
    assert_eq!(ids, vec!["//a", "//m", "//z"]);
    let edges: Vec<(&str, &str)> =
        wire.edges.iter().map(|e| (e.from.as_str(), e.to.as_str())).collect();
    assert_eq!(edges, vec![("//m", "//a"), ("//z", "//a")]);
}

#[test]
fn order_of_insertion_does_not_show() {
    let build = |ids: &[&str], edges: &[(&str, &str)]| -> WireProjectGraph {
        let mut g = ProjectGraph::new("/tmp/mono".to_string());
        for id in ids {
            let mut p = Project::new(id.to_string(), id[2..].to_string(), ProjectSource::Nx);
            p.tags.insert("y".into());
            p.tags.insert("x".into());
            g.upsert_project(p);
        }
        for (from, to) in edges {
            g.add_edge(from, to);
        }
        (&g).into()
    };
    let one = build(&["//a", "//b", "//c"], &[("//a", "//b"), ("//b", "//c"), ("//a", "//c")]);
    let two = build(&["//c", "//a", "//b"], &[("//a", "//c"), ("//a", "//b"), ("//b", "//c")]);
    assert_eq!(format!("{one:?}"), format!("{two:?}"));
    assert_eq!(one.projects[0].tags, vec!["x", "y"]);
    assert_eq!(format!("{:?}", one.clone()), format!("{two:?}"));
}
