//! Project ids, sources, and paths.
use project_graph::path::file_name;
use project_graph::path::is_under;
use project_graph::path::join;
use project_graph::path::parent;
use project_graph::path::path_is_before;
use project_graph::path::sort_paths;
use project_graph::path::strip_prefix;
use project_graph::project_id_from_path;
use project_graph::ProjectSource;

#[test]
fn project_id_from_path_basic() {
    assert_eq!(project_id_from_path("/tmp/mono", "/tmp/mono/apps/web"), "//apps/web");
}

#[test]
fn project_id_from_path_root_dir() {
    assert_eq!(project_id_from_path("/tmp/mono", "/tmp/mono"), "//");
}

#[test]
fn project_id_from_path_outside_root() {
    assert_eq!(project_id_from_path("/tmp/mono", "/elsewhere/foo"), "//elsewhere/foo");
}

#[test]
fn project_source_display() {
    assert_eq!(ProjectSource::Mise.to_string(), "mise");
    assert_eq!(ProjectSource::Nx.to_string(), "nx");
    assert_eq!(ProjectSource::Plugin("vfox".into()).to_string(), "plugin:vfox");
}

#[test]
fn labels_of_sources_differ() {
    let sources = [
        ProjectSource::Mise,
        ProjectSource::Nx,
        ProjectSource::Turbo,
        ProjectSource::PnpmWorkspace,
        ProjectSource::NpmWorkspace,
        ProjectSource::Plugin("".into()),
        ProjectSource::Plugin("npm-workspace".into()),
    ];
    for (i, a) in sources.iter().enumerate() {
        for (j, b) in sources.iter().enumerate() {
            assert_eq!(a.to_string() == b.to_string(), i == j);
            assert_eq!(a.same(b), i == j);
        }
    }
    assert_eq!(ProjectSource::Turbo.to_string(), "turbo");
    assert_eq!(ProjectSource::PnpmWorkspace.to_string(), "pnpm-workspace");
    assert_eq!(ProjectSource::NpmWorkspace.to_string(), "npm-workspace");
}

#[test]
fn ids_of_odd_paths() {
    assert_eq!(project_id_from_path("/tmp/mono", "/tmp/mono/"), "//");
    assert_eq!(project_id_from_path("/tmp/mono/", "/tmp/mono/./a/"), "//a");
    assert_eq!(project_id_from_path("/tmp/mono", "/tmp/monolith"), "//tmp/monolith");
    assert_eq!(project_id_from_path("/tmp/mono", "///abs"), "//abs");
    assert_eq!(project_id_from_path("", "."), "//");
    assert_eq!(project_id_from_path("/tmp/mono", "."), "//");
    assert_eq!(project_id_from_path("/tmp/mono", ""), "//");
}

/// The forms of paths that std's documentation gives for `Path`.
#[test]
fn paths_behave_like_std() {
    let paths = [
        "", ".", "..", "/", "//", "/a", "a", "a/", "a//b", "./a", "a/./b", "a/.", "/.", "/a/../b",
        "../a", "a/b/c", "/a/b/c/", "./.", "././a", "a/..", ".a", "a.b", "/tmp/mono/apps",
    ];
    for p in paths {
        let std_path = std::path::Path::new(p);
        assert_eq!(
            file_name(p),
            std_path.file_name().map(|n| n.to_str().unwrap().to_string()),
            "file name of {p:?}"
        );
        assert_eq!(
            parent(p),
            std_path.parent().map(|n| n.to_str().unwrap().to_string()),
            "parent of {p:?}"
        );
        for q in paths {
            let std_base = std::path::Path::new(q);
            assert_eq!(
                strip_prefix(p, q),
                std_path.strip_prefix(std_base).ok().map(|n| n.to_str().unwrap().to_string()),
                "{p:?} without {q:?}"
            );
            assert_eq!(is_under(p, q), std_path.starts_with(std_base), "{p:?} under {q:?}");
            assert_eq!(join(p, q), std_path.join(std_base).to_str().unwrap(), "{p:?} and {q:?}");
            assert_eq!(path_is_before(p, q), std_path < std_base, "{p:?} before {q:?}");
        }
    }
}

#[test]
fn relative_path_joined_to_its_base_is_the_path() {
    for (path, base) in [("/a/b/c", "/a"), ("/a//b/", "/a"), ("a/b", "a"), ("/a", "/a"), ("x", "")] {
        let rel = strip_prefix(path, base).unwrap();
        let again = join(base, &rel);
        assert!(is_under(&again, path) && is_under(path, &again), "{path:?} from {base:?}");
    }
}

#[test]
fn sorting_paths_drops_repetitions() {
    let list: Vec<String> =
        ["/b", "/a/c", "/a//c", "/a", "/a-b", "/b/"].iter().map(|p| p.to_string()).collect();
    assert_eq!(sort_paths(&list), vec!["/a", "/a/c", "/a-b", "/b"]);
    assert!(sort_paths(&vec![]).is_empty());
}

#[test]
fn id_of_a_joined_path_is_its_components() {
    for root in ["/tmp/mono", "/tmp/mono/", "/", "mono", "./mono", ""] {
        for names in [vec!["a"], vec!["apps", "web"], vec![".hidden", "a.b", "..c"]] {
            let rel = names.join("/");
            assert_eq!(project_id_from_path(root, &join(root, &rel)), format!("//{rel}"));
        }
    }
    // Separators within a path are kept as they are.
    assert_eq!(project_id_from_path("/tmp/mono", "/tmp/mono/a//b"), "//a//b");
}
