use logical_builder::create::{next_create_action, shapes_dir, CreateAction, CreateEvent};
use logical_builder::path::{components_of, final_name_of, join_path, path_is_within};
use logical_builder::project::{FsNode, Project, ProjectEntry};

fn dir(name: &str, children: Vec<FsNode>) -> FsNode {
    FsNode::Directory(name.to_string(), children)
}

fn file(name: &str) -> FsNode {
    FsNode::File(name.to_string())
}

fn files_of(e: &ProjectEntry, out: &mut Vec<String>) {
    match e {
        ProjectEntry::File(p) => out.push(p.clone()),
        ProjectEntry::Directory(_, ch) => {
            for c in ch {
                files_of(c, out);
            }
        }
    }
}

fn sorted_files(e: &ProjectEntry) -> Vec<String> {
    let mut out = Vec::new();
    files_of(e, &mut out);
    out.sort();
    out
}

/// Runs the set-up steps on reported outcomes, returning the actions taken.
fn run_create(exists: bool, root_ok: bool, is_dir: bool, is_empty: bool, shapes_ok: bool) -> Vec<CreateAction> {
    let mut actions = Vec::new();
    let mut event = CreateEvent::Probed { exists };
    loop {
        let a = next_create_action(event);
        actions.push(a);
        event = match a {
            CreateAction::CreateRoot => CreateEvent::RootCreated { ok: root_ok },
            CreateAction::InspectRoot => CreateEvent::Inspected { is_dir, is_empty },
            CreateAction::CreateShapes => CreateEvent::ShapesCreated { ok: shapes_ok },
            CreateAction::ScanRoot | CreateAction::Fail => return actions,
        };
    }
}

#[test]
fn create_in_empty_dir_then_new_file() {
    let actions = run_create(true, true, true, true, true);
    assert_eq!(
        actions,
        vec![CreateAction::InspectRoot, CreateAction::CreateShapes, CreateAction::ScanRoot]
    );
    assert_eq!(shapes_dir("/tmp/p"), "/tmp/p/shapes");

    let mut project = Project::create_new("/tmp/p", Some(vec![dir("shapes", vec![])])).unwrap();
    assert_eq!(project.root(), "/tmp/p");
    match project.entries() {
        ProjectEntry::Directory(p, ch) => {
            assert_eq!(p, "/tmp/p");
            assert_eq!(ch.len(), 1);
            match &ch[0] {
                ProjectEntry::Directory(q, g) => {
                    assert_eq!(q, "/tmp/p/shapes");
                    assert!(g.is_empty());
                }
                ProjectEntry::File(_) => panic!("shapes is a directory"),
            }
            assert_eq!(ch[0].name(), Some("shapes"));
        }
        ProjectEntry::File(_) => panic!("the root is a directory"),
    }

    assert!(project.new_file("/tmp/p/shapes/a.shape", false).is_ok());
    project.record_write(Some(vec![dir("shapes", vec![file("a.shape")])]));
    assert_eq!(sorted_files(project.entries()), vec!["/tmp/p/shapes/a.shape".to_string()]);
    assert_eq!(project.root(), "/tmp/p");
}

#[test]
fn create_refuses_nonempty_dir() {
    let actions = run_create(true, true, true, false, true);
    assert_eq!(actions, vec![CreateAction::InspectRoot, CreateAction::Fail]);
}

#[test]
fn create_refuses_file_root() {
    let actions = run_create(true, true, false, true, true);
    assert_eq!(actions, vec![CreateAction::InspectRoot, CreateAction::Fail]);
}

#[test]
fn create_makes_missing_root() {
    let actions = run_create(false, true, true, true, true);
    assert_eq!(
        actions,
        vec![
            CreateAction::CreateRoot,
            CreateAction::InspectRoot,
            CreateAction::CreateShapes,
            CreateAction::ScanRoot
        ]
    );
}

#[test]
fn create_fails_when_root_cannot_be_made() {
    assert_eq!(run_create(false, false, true, true, true), vec![CreateAction::CreateRoot, CreateAction::Fail]);
}

#[test]
fn create_fails_when_shapes_cannot_be_made() {
    assert_eq!(
        run_create(true, true, true, true, false),
        vec![CreateAction::InspectRoot, CreateAction::CreateShapes, CreateAction::Fail]
    );
}

#[test]
fn create_new_reports_unreadable_root() {
    let r = Project::create_new("/tmp/p", None);
    assert!(r.is_err());
    assert_eq!(r.unwrap_err().message(), "Failed to create project");
}

#[test]
fn from_root_rejects_non_directory() {
    let r = Project::from_root("/tmp/not_a_dir", None);
    assert!(r.is_err());
    assert_eq!(r.unwrap_err().message(), "Selected folder is not a valid project");
}

#[test]
fn from_root_lists_every_file() {
    let listing = vec![
        file("notes.txt"),
        dir("shapes", vec![file("a.shape"), dir("deep", vec![file("b.shape")]), dir("empty", vec![])]),
        file("c"),
    ];
    let p = Project::from_root("/home/u/proj", Some(listing)).unwrap();
    assert_eq!(
        sorted_files(p.entries()),
        vec![
            "/home/u/proj/c".to_string(),
            "/home/u/proj/notes.txt".to_string(),
            "/home/u/proj/shapes/a.shape".to_string(),
            "/home/u/proj/shapes/deep/b.shape".to_string(),
        ]
    );
    match p.entries() {
        ProjectEntry::Directory(_, ch) => {
            assert_eq!(ch.len(), 3);
            assert_eq!(ch[0].name(), Some("notes.txt"));
            assert_eq!(ch[1].name(), Some("shapes"));
            assert_eq!(ch[2].name(), Some("c"));
        }
        ProjectEntry::File(_) => panic!("the root is a directory"),
    }
}

#[test]
fn from_root_twice_gives_same_files() {
    let listing = || vec![dir("x", vec![file("1"), file("2")]), file("3")];
    let a = Project::from_root("/r", Some(listing())).unwrap();
    let b = Project::from_root("/r", Some(listing())).unwrap();
    assert_eq!(sorted_files(a.entries()), sorted_files(b.entries()));
    assert_eq!(sorted_files(a.entries()).len(), 3);
}

#[test]
fn from_root_of_empty_dir() {
    let p = Project::from_root("/r/", Some(vec![])).unwrap();
    match p.entries() {
        ProjectEntry::Directory(path, ch) => {
            assert_eq!(path, "/r/");
            assert!(ch.is_empty());
        }
        ProjectEntry::File(_) => panic!("the root is a directory"),
    }
}

#[test]
fn root_with_trailing_separator_joins_once() {
    let p = Project::from_root("/r/", Some(vec![file("f")])).unwrap();
    assert_eq!(sorted_files(p.entries()), vec!["/r/f".to_string()]);
}

#[test]
fn new_file_outside_root_is_refused() {
    let p = Project::from_root("/tmp/p", Some(vec![])).unwrap();
    let r = p.new_file("/tmp/other/x.shape", false);
    assert!(r.is_err());
    assert_eq!(r.unwrap_err().message(), "Selected file location is not part of the project");
}

#[test]
fn new_file_sibling_with_common_prefix_is_refused() {
    let p = Project::from_root("/tmp/p", Some(vec![])).unwrap();
    assert!(p.new_file("/tmp/pq/x.shape", false).is_err());
}

#[test]
fn new_file_at_existing_path_outside_root_is_accepted() {
    let p = Project::from_root("/tmp/p", Some(vec![])).unwrap();
    assert!(p.new_file("/etc/existing", true).is_ok());
}

#[test]
fn failed_write_keeps_snapshot() {
    let mut p = Project::from_root("/tmp/p", Some(vec![file("a")])).unwrap();
    p.record_write(None);
    assert_eq!(sorted_files(p.entries()), vec!["/tmp/p/a".to_string()]);
}

#[test]
fn within_at_component_boundaries() {
    assert!(path_is_within("/tmp/p", "/tmp/p"));
    assert!(path_is_within("/tmp/p", "/tmp/p/a/b"));
    assert!(path_is_within("/tmp/p/", "/tmp/p/a"));
    assert!(path_is_within("", "a"));
    assert!(!path_is_within("/tmp/p", "/tmp/pq"));
    assert!(!path_is_within("/tmp/p/a", "/tmp/p"));
    assert!(!path_is_within("/tmp/p", "/tmp/q/a"));
    assert!(path_is_within("/tmp/p/.", "/tmp/p/.x"));
    assert!(path_is_within("//tmp//p", "/tmp/p/a"));
    assert!(path_is_within("/tmp/./p", "/tmp/p/x"));
    assert!(path_is_within("/tmp/p/", "/tmp/p"));
    assert!(path_is_within("./a", "./a/b"));
    assert!(!path_is_within("/tmp/p", "tmp/p/x"));
    // components are compared as written: `..` is not resolved
    assert!(path_is_within("/tmp/p", "/tmp/p/../q"));
}

#[test]
fn components_drop_repeated_separators_and_dots() {
    assert_eq!(components_of("//tmp/./p//"), vec!["/".to_string(), "tmp".to_string(), "p".to_string()]);
    assert_eq!(components_of("./a/."), vec![".".to_string(), "a".to_string()]);
    assert_eq!(components_of("a/../b"), vec!["a".to_string(), "..".to_string(), "b".to_string()]);
    assert!(components_of("").is_empty());
}

#[test]
fn new_file_under_unnormalised_root_is_accepted() {
    let p = Project::from_root("/tmp/p/.", Some(vec![])).unwrap();
    assert!(p.new_file("/tmp/p/.x", false).is_ok());
    assert!(p.new_file("/tmp//p/./shapes/a.shape", false).is_ok());
}

#[test]
fn join_puts_one_separator() {
    assert_eq!(join_path("/a", "b"), "/a/b");
    assert_eq!(join_path("/a/", "b"), "/a/b");
    assert_eq!(join_path("", "b"), "b");
}

#[test]
fn final_names() {
    assert_eq!(final_name_of("/tmp/p/shapes/a.shape"), Some("a.shape"));
    assert_eq!(final_name_of("/tmp/p/shapes/"), Some("shapes"));
    assert_eq!(final_name_of("relative"), Some("relative"));
    assert_eq!(final_name_of("/"), None);
    assert_eq!(final_name_of(""), None);
    assert_eq!(final_name_of("/tmp/.."), None);
    assert_eq!(final_name_of("/tmp/."), Some("tmp"));
    assert_eq!(final_name_of("/tmp/./"), Some("tmp"));
    assert_eq!(final_name_of("/tmp/a./"), Some("a."));
    assert_eq!(final_name_of("/."), None);
    assert_eq!(final_name_of("."), None);
    assert_eq!(final_name_of("/tmp/..x"), Some("..x"));
}

#[test]
fn entry_without_name() {
    assert_eq!(ProjectEntry::Directory("/".to_string(), vec![]).name(), None);
    assert_eq!(ProjectEntry::File("/x/y.shape".to_string()).name(), Some("y.shape"));
}

#[test]
fn children_lie_directly_in_their_directory() {
    let p = Project::from_root("/r//", Some(vec![dir("d", vec![file("f")]), file("g")])).unwrap();
    match p.entries() {
        ProjectEntry::Directory(root, ch) => {
            assert_eq!(root, "/r//");
            match &ch[0] {
                ProjectEntry::Directory(d, g) => {
                    assert_eq!(d, "/r//d");
                    assert_eq!(components_of(d), vec!["/".to_string(), "r".to_string(), "d".to_string()]);
                    assert_eq!(g.len(), 1);
                    assert_eq!(g[0].name(), Some("f"));
                }
                ProjectEntry::File(_) => panic!("d is a directory"),
            }
            assert_ne!(ch[0].name(), ch[1].name());
        }
        ProjectEntry::File(_) => panic!("the root is a directory"),
    }
}
