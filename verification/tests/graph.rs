//! The project graph: projects, edges, dependents, and changed files.
use project_graph::changed::deepest_claim;
use project_graph::changed::SourceGlobError;
use project_graph::Project;
use project_graph::ProjectGraph;
use project_graph::ProjectSource;

fn proj(id: &str, source: ProjectSource) -> Project {
    Project::new(id.to_string(), id.trim_start_matches("//").to_string(), source)
}

fn graph_of(ids: &[&str], edges: &[(&str, &str)]) -> ProjectGraph {
    let mut g = ProjectGraph::new("/tmp/mono".to_string());
    for id in ids {
        g.upsert_project(proj(id, ProjectSource::Mise));
    }
    for (from, to) in edges {
        g.add_edge(from, to);
    }
    g
}

#[test]
fn upsert_dedups_by_id_and_merges_foreign_names() {
    let mut g = ProjectGraph::new("/tmp".to_string());
    let mut a1 = proj("//apps/web", ProjectSource::Mise);
    a1.foreign_names.insert(ProjectSource::Mise, "web".into());
    g.upsert_project(a1);
    let mut a2 = proj("//apps/web", ProjectSource::Nx);
    a2.foreign_names.insert(ProjectSource::Nx, "web-shell".into());
    g.upsert_project(a2);
    assert_eq!(g.graph.node_count(), 1);
    let p = g.project(&"//apps/web".to_string()).unwrap();
    assert_eq!(p.foreign_names.get(&ProjectSource::Mise).unwrap(), "web");
    assert_eq!(p.foreign_names.get(&ProjectSource::Nx).unwrap(), "web-shell");
}

#[test]
fn transitive_dependents_includes_seed_and_walks_reverse_edges() {
    let mut g = ProjectGraph::new("/tmp".to_string());
    g.upsert_project(proj("//a", ProjectSource::Mise));
    g.upsert_project(proj("//b", ProjectSource::Mise));
    g.upsert_project(proj("//c", ProjectSource::Mise));
    g.add_edge("//a", "//b");
    g.add_edge("//c", "//a");
    let affected = g.transitive_dependents(&["//b".into()]);
    let expected: Vec<String> = vec!["//a".into(), "//b".into(), "//c".into()];
    assert_eq!(affected.into_items(), expected);
}

#[test]
fn cycle_detected() {
    let mut g = ProjectGraph::new("/tmp".to_string());
    g.upsert_project(proj("//a", ProjectSource::Mise));
    g.upsert_project(proj("//b", ProjectSource::Mise));
    g.add_edge("//a", "//b");
    g.add_edge("//b", "//a");
    assert!(g.has_cycle());
}

#[test]
fn resolve_by_foreign_name() {
    let mut g = ProjectGraph::new("/tmp".to_string());
    let mut p = proj("//apps/web", ProjectSource::Nx);
    p.foreign_names.insert(ProjectSource::Nx, "web-shell".into());
    g.upsert_project(p);
    let resolved = g.resolve_by_foreign_name(&ProjectSource::Nx, "web-shell");
    assert_eq!(resolved.cloned(), Some("//apps/web".to_string()));
}

#[test]
fn projects_for_changed_files_picks_deepest_match() {
    let mut g = ProjectGraph::new("/tmp/mono".to_string());
    let mut shared = Project::new("//".into(), "".to_string(), ProjectSource::Mise);
    shared.sources = vec!["**".into()];
    g.upsert_project(shared);
    let nested = Project::new("//apps/web".into(), "apps/web".to_string(), ProjectSource::Mise);
    g.upsert_project(nested);
    let changed = vec!["/tmp/mono/apps/web/src/main.ts".to_string()];
    let seeds = g.projects_for_changed_files(&changed).unwrap();
    assert!(seeds.contains("//apps/web"));
    assert!(!seeds.contains("//"));
}

#[test]
fn empty_graph_has_nothing() {
    let g = ProjectGraph::new("/tmp/mono".to_string());
    assert!(g.is_empty());
    assert!(g.projects().is_empty());
    assert!(!g.has_cycle());
    assert!(g.cycles().is_empty());
    assert!(g.all_ids().is_empty());
    assert!(g.transitive_dependents(&["//a".into()]).is_empty());
    assert_eq!(g.to_dot(), "digraph {\n}\n");
    assert_eq!(g.root(), "/tmp/mono");
    assert_eq!(ProjectGraph::default().root(), "");
    assert!(!graph_of(&["//a"], &[]).is_empty());
}

#[test]
fn upsert_merges_tags_and_sources_in_order() {
    let mut g = ProjectGraph::new("/tmp".to_string());
    let mut first = proj("//a", ProjectSource::Mise);
    first.sources = vec!["src/**".into(), "lib/**".into()];
    first.tags.insert("x".into());
    assert_eq!(g.upsert_project(first), 0);
    let mut second = proj("//a", ProjectSource::Nx);
    second.root = "elsewhere".to_string();
    second.sources = vec!["lib/**".into(), "doc/**".into(), "doc/**".into()];
    second.tags.insert("y".into());
    second.tags.insert("x".into());
    assert_eq!(g.upsert_project(second), 0);
    let p = g.project("//a").unwrap();
    assert_eq!(p.sources, vec!["src/**", "lib/**", "doc/**"]);
    assert_eq!(p.tags.clone().into_items(), vec!["x", "y"]);
    assert_eq!(p.root, "a");
    assert!(p.source.same(&ProjectSource::Mise));
    assert_eq!(g.upsert_project(proj("//b", ProjectSource::Nx)), 1);
}

#[test]
fn upserting_twice_changes_nothing_more() {
    let mut g = graph_of(&["//a", "//b"], &[("//a", "//b")]);
    let mut p = proj("//b", ProjectSource::Nx);
    p.foreign_names.insert(ProjectSource::Nx, "bee".into());
    p.sources = vec!["src/**".into()];
    g.upsert_project(p.clone());
    let once = format!("{:?}", g.projects());
    g.upsert_project(p);
    assert_eq!(format!("{:?}", g.projects()), once);
    assert_eq!(g.graph.edge_count(), 1);
}

#[test]
fn first_registered_name_wins() {
    let mut g = ProjectGraph::new("/tmp".to_string());
    for id in ["//a", "//b"] {
        let mut p = proj(id, ProjectSource::Nx);
        p.foreign_names.insert(ProjectSource::Nx, "same".into());
        g.upsert_project(p);
    }
    let found = g.resolve_by_foreign_name(&ProjectSource::Nx, "same");
    assert_eq!(found.map(String::as_str), Some("//a"));
    assert!(g.resolve_by_foreign_name(&ProjectSource::Mise, "same").is_none());
    assert!(g.resolve_by_foreign_name(&ProjectSource::Nx, "other").is_none());
    let plugin = ProjectSource::Plugin("p".into());
    assert!(g.resolve_by_foreign_name(&plugin, "same").is_none());
}

#[test]
fn edges_to_missing_projects_and_to_itself_are_dropped() {
    let mut g = graph_of(&["//a", "//b"], &[]);
    g.add_edge("//a", "//ghost");
    g.add_edge("//ghost", "//a");
    g.add_edge("//a", "//a");
    assert_eq!(g.graph.edge_count(), 0);
    g.add_edge("//a", "//b");
    g.add_edge("//a", "//b");
    assert_eq!(g.graph.edge_count(), 1);
    assert!(g.has_room_for_edge("//b", "//a"));
    assert!(g.has_room_for_project("//c"));
    assert!(!g.has_cycle());
}

#[test]
fn dependents_are_closed_and_split_over_seeds() {
    let g = graph_of(
        &["//a", "//b", "//c", "//d", "//e"],
        &[("//a", "//b"), ("//b", "//c"), ("//d", "//c"), ("//c", "//e")],
    );
    let of = |seeds: &[&str]| -> Vec<String> {
        let seeds: Vec<String> = seeds.iter().map(|s| s.to_string()).collect();
        g.transitive_dependents(&seeds).into_items()
    };
    assert_eq!(of(&["//c"]), vec!["//a", "//b", "//c", "//d"]);
    assert_eq!(of(&["//a", "//b", "//c", "//d"]), of(&["//c"]));
    assert_eq!(of(&["//b", "//d"]), vec!["//a", "//b", "//d"]);
    assert_eq!(of(&["//ghost"]), Vec::<String>::new());
    assert_eq!(of(&["//e", "//ghost", "//e"]).len(), 5);
}

#[test]
fn dependents_in_a_circle_are_found_once() {
    let g = graph_of(&["//a", "//b", "//c"], &[("//a", "//b"), ("//b", "//c"), ("//c", "//a")]);
    assert_eq!(
        g.transitive_dependents(&["//b".into()]).into_items(),
        vec!["//a", "//b", "//c"]
    );
}

#[test]
fn cycles_are_listed_by_group() {
    let g = graph_of(
        &["//a", "//b", "//c", "//d", "//e"],
        &[("//a", "//b"), ("//b", "//a"), ("//c", "//d"), ("//d", "//c"), ("//e", "//a")],
    );
    assert!(g.has_cycle());
    let mut groups = g.cycles();
    for group in groups.iter_mut() {
        group.sort();
    }
    groups.sort();
    assert_eq!(groups, vec![vec!["//a", "//b"], vec!["//c", "//d"]]);
    assert!(graph_of(&["//a", "//b"], &[("//a", "//b")]).cycles().is_empty());
}

#[test]
fn dot_lists_nodes_and_edges() {
    let g = graph_of(&["//b", "//a", "//c"], &[("//a", "//b"), ("//c", "//a")]);
    assert_eq!(
        g.to_dot(),
        "digraph {\n    0 [ label = \"//b\"]\n    1 [ label = \"//a\"]\n    2 [ label = \"//c\"]\n    1 -> 0 [ ]\n    2 -> 1 [ ]\n}\n"
    );
}

#[test]
fn dot_numbers_are_decimal() {
    let ids: Vec<String> = (0..12).map(|i| format!("//{i}")).collect();
    let refs: Vec<&str> = ids.iter().map(String::as_str).collect();
    let g = graph_of(&refs, &[("//11", "//10")]);
    assert!(g.to_dot().ends_with("    11 [ label = \"//11\"]\n    11 -> 10 [ ]\n}\n"));
}

#[test]
fn source_globs_restrict_what_a_project_claims() {
    let mut g = ProjectGraph::new("/tmp/mono".to_string());
    let mut web = Project::new("//web".into(), "web".to_string(), ProjectSource::Nx);
    web.sources = vec!["src/**/*.ts".into(), "*.json".into()];
    g.upsert_project(web);
    g.upsert_project(Project::new("//".into(), "".to_string(), ProjectSource::Mise));
    let changed = |file: &str| g.projects_for_changed_files(&[file.to_string()]).unwrap().into_items();
    assert_eq!(changed("web/src/a/b.ts"), vec!["//web"]);
    assert_eq!(changed("/tmp/mono/web/src/a/b.ts"), vec!["//web"]);
    assert_eq!(changed("web/package.json"), vec!["//web"]);
    assert_eq!(changed("web/README.md"), vec!["//"]);
    assert_eq!(changed("other/README.md"), vec!["//"]);
    assert_eq!(changed("/elsewhere/README.md"), Vec::<String>::new());
    assert_eq!(changed("/tmp/monolith/x"), Vec::<String>::new());
}

#[test]
fn changed_files_add_up_in_any_order() {
    let g = graph_of(&["//a", "//b"], &[("//b", "//a")]);
    let a = "/tmp/mono/a/x".to_string();
    let b = "b/y".to_string();
    let outside = "c/z".to_string();
    let both = g.projects_for_changed_files(&[a.clone(), b.clone(), outside.clone()]).unwrap();
    assert_eq!(both.into_items(), vec!["//a", "//b"]);
    let turned = g.projects_for_changed_files(&[outside, b.clone(), a.clone(), b]).unwrap();
    assert_eq!(turned.into_items(), vec!["//a", "//b"]);
    assert_eq!(g.projects_for_changed_files(&[a.clone()]).unwrap().into_items(), vec!["//a"]);
    assert_eq!(g.affected_from_paths(&[a]).unwrap().into_items(), vec!["//a", "//b"]);
    assert!(g.projects_for_changed_files(&[]).unwrap().is_empty());
}

#[test]
fn root_of_a_project_may_be_absolute() {
    let mut g = ProjectGraph::new("/tmp/mono".to_string());
    g.upsert_project(Project::new("//a".into(), "/tmp/mono/a".to_string(), ProjectSource::Nx));
    let found = g.projects_for_changed_files(&["a/b".to_string()]).unwrap();
    assert_eq!(found.into_items(), vec!["//a"]);
}

#[test]
fn invalid_source_glob_is_reported() {
    let mut g = ProjectGraph::new("/tmp/mono".to_string());
    g.upsert_project(proj("//fine", ProjectSource::Nx));
    let mut bad = proj("//bad", ProjectSource::Nx);
    bad.sources = vec!["src/**".into(), "a{b".into(), "[".into()];
    g.upsert_project(bad);
    let err = g.projects_for_changed_files(&[]).unwrap_err();
    assert_eq!(err.message(), "project '//bad' has invalid source glob 'a{b'");
    match err {
        SourceGlobError::InvalidPattern { cause, .. } => {
            assert_eq!(cause, globset::Glob::new("a{b").unwrap_err());
        }
        SourceGlobError::InvalidSet { .. } => panic!("a pattern is no glob"),
    }
    assert!(g.affected_from_paths(&["x".to_string()]).is_err());
}

#[test]
fn deepest_claim_prefers_depth_and_then_the_first() {
    assert_eq!(deepest_claim(&vec![true, true, true], &vec![2, 4, 4]), Some(1));
    assert_eq!(deepest_claim(&vec![true, false, true], &vec![2, 9, 3]), Some(2));
    assert_eq!(deepest_claim(&vec![false, false], &vec![1, 2]), None);
    assert_eq!(deepest_claim(&vec![], &vec![]), None);
}

#[test]
fn all_ids_are_sorted() {
    let g = graph_of(&["//z", "//a", "//m"], &[]);
    assert_eq!(g.all_ids().into_items(), vec!["//a", "//m", "//z"]);
}

#[test]
fn globs_that_are_too_large_are_reported() {
    let mut g = ProjectGraph::new("/tmp/mono".to_string());
    let mut large = proj("//large", ProjectSource::Nx);
    large.sources = vec!["?".repeat(200_000)];
    g.upsert_project(large);
    let err = g.projects_for_changed_files(&[]).unwrap_err();
    let said = err.message();
    assert_eq!(said, "error building NFA");
    match err {
        SourceGlobError::InvalidSet { project, cause } => {
            assert_eq!(project, "//large");
            assert_eq!(said, cause.to_string());
        }
        SourceGlobError::InvalidPattern { .. } => panic!("the pattern is a glob"),
    }
}

#[test]
fn copy_of_a_graph_stands_on_its_own() {
    let mut g = graph_of(&["//a", "//b"], &[("//a", "//b"), ("//b", "//a")]);
    let mut named = proj("//c", ProjectSource::Nx);
    named.foreign_names.insert(ProjectSource::Nx, "twin".into());
    named.tags.insert("lib".into());
    named.sources = vec!["src/**".into()];
    g.upsert_project(named);
    let mut second = proj("//d", ProjectSource::Nx);
    second.foreign_names.insert(ProjectSource::Nx, "twin".into());
    g.upsert_project(second);
    g.note_cycles();

    let mut copy = g.clone();
    assert_eq!(copy.to_dot(), g.to_dot());
    assert_eq!(copy.root(), "/tmp/mono");
    assert!(copy.cycle_found());
    assert_eq!(copy.name_collisions(), g.name_collisions());
    assert_eq!(copy.name_collisions().len(), 1);
    let c = copy.project("//c").unwrap();
    assert!(c.tags.contains("lib"));
    assert_eq!(c.sources, vec!["src/**"]);
    assert_eq!(
        copy.resolve_by_foreign_name(&ProjectSource::Nx, "twin").map(String::as_str),
        Some("//c")
    );

    copy.upsert_project(proj("//e", ProjectSource::Mise));
    copy.add_edge("//e", "//a");
    assert_eq!(copy.transitive_dependents(&["//a".into()]).into_items(), vec!["//a", "//b", "//e"]);
    assert_eq!(g.transitive_dependents(&["//a".into()]).into_items(), vec!["//a", "//b"]);
    assert!(g.project("//e").is_none());
}
