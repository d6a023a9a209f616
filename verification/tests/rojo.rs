use rune_project::command::ProjectCommandError;
use rune_project::project_tree::{InstanceId, ProjectTreeError};
use rune_project::rojo::{
    build_loaded_project, directory_targets, project_file_candidate, project_root,
    script_descriptor, DirectoryScan, EntryKind, LoadedProject, ProjectError, RawChild,
    RawInstanceDescription, RawProject, ScannedEntry,
};
use rune_project::snapshot::ProjectSnapshot;

fn file(dir: &str, name: &str) -> ScannedEntry {
    ScannedEntry {
        path: format!("{}/{}", dir, name),
        file_name: name.as_bytes().to_vec(),
        kind: EntryKind::File,
    }
}

fn folder(dir: &str, name: &str, entries: Vec<ScannedEntry>) -> ScannedEntry {
    ScannedEntry {
        path: format!("{}/{}", dir, name),
        file_name: name.as_bytes().to_vec(),
        kind: EntryKind::Directory(DirectoryScan::Entries(entries)),
    }
}

fn description(class_name: Option<&str>, path: Option<&str>, children: Vec<RawChild>) -> RawInstanceDescription {
    RawInstanceDescription {
        class_name: class_name.map(|c| c.to_string()),
        path: path.map(|p| p.to_string()),
        children,
    }
}

fn child(name: &str, description: RawInstanceDescription) -> RawChild {
    RawChild { name: name.to_string(), description }
}

/// A project like the original's script-only fixture: four scripts of the
/// three kinds under two directories.
fn script_only_project() -> (RawProject, Vec<DirectoryScan>) {
    let project = RawProject {
        name: "Rune Script Fixture".to_string(),
        tree: description(
            Some("DataModel"),
            None,
            vec![
                child("ReplicatedStorage", description(Some("ReplicatedStorage"), Some("src/shared"), vec![])),
                child("ServerScriptService", description(Some("ServerScriptService"), Some("src/server"), vec![])),
                child("StarterPlayer", description(Some("StarterPlayer"), None, vec![
                    child("StarterPlayerScripts", description(Some("StarterPlayerScripts"), Some("src/client"), vec![])),
                ])),
            ],
        ),
    };
    let scans = vec![
        DirectoryScan::Entries(vec![
            file("/proj/src/shared", "util.lua"),
            file("/proj/src/shared", "README.md"),
            file("/proj/src/shared", "math.lua"),
        ]),
        DirectoryScan::Entries(vec![file("/proj/src/server", "main.server.lua")]),
        DirectoryScan::Entries(vec![file("/proj/src/client", "input.client.lua")]),
    ];
    (project, scans)
}

fn load(project: RawProject, scans: Vec<DirectoryScan>) -> Result<LoadedProject, ProjectError> {
    build_loaded_project(
        "/proj/default.project.json".to_string(),
        "/proj".to_string(),
        project,
        scans,
    )
}

#[test]
fn loads_script_only_project_from_scans() {
    let (project, scans) = script_only_project();
    let targets = directory_targets("/proj", &project);
    assert_eq!(targets, vec!["/proj/src/shared", "/proj/src/server", "/proj/src/client"]);

    let project = load(project, scans).unwrap();
    assert_eq!(project.name, "Rune Script Fixture");
    assert_eq!(project.project_file, "/proj/default.project.json");
    assert_eq!(project.tree.root().class_name(), "DataModel");
    assert_eq!(project.scripts.len(), 4);
    assert!(project.scripts.iter().any(|script| script.class_name == "Script"));
    assert!(project.scripts.iter().any(|script| script.class_name == "LocalScript"));
    assert!(project.scripts.iter().any(|script| script.class_name == "ModuleScript"));
}

#[test]
fn instances_get_ids_in_depth_first_order_and_files_in_name_order() {
    let (project, scans) = script_only_project();
    let project = load(project, scans).unwrap();
    let ids: Vec<u64> = project.tree.depth_first_ids().iter().map(|id| id.value()).collect();
    assert_eq!(ids, vec![1, 2, 3, 4, 5, 6, 7, 8, 9]);

    let root = project.tree.root();
    assert_eq!(root.name(), "Rune Script Fixture");
    let names: Vec<&str> = root.children().iter().map(|c| c.name()).collect();
    assert_eq!(names, vec!["ReplicatedStorage", "ServerScriptService", "StarterPlayer"]);

    let shared = &root.children()[0];
    let shared_names: Vec<&str> = shared.children().iter().map(|c| c.name()).collect();
    assert_eq!(shared_names, vec!["math", "util"]);
    assert_eq!(shared.children()[0].class_name(), "ModuleScript");
    assert_eq!(shared.children()[0].id(), InstanceId::new(3));

    let scripts: Vec<(u64, &str, &str, &str)> = project
        .scripts
        .iter()
        .map(|s| (s.id.value(), s.name.as_str(), s.class_name.as_str(), s.relative_path.as_str()))
        .collect();
    assert_eq!(
        scripts,
        vec![
            (3, "math", "ModuleScript", "src/shared/math.lua"),
            (4, "util", "ModuleScript", "src/shared/util.lua"),
            (6, "main", "Script", "src/server/main.server.lua"),
            (9, "input", "LocalScript", "src/client/input.client.lua"),
        ]
    );
    let player_scripts = &root.children()[2].children()[0];
    assert_eq!(player_scripts.name(), "StarterPlayerScripts");
    assert_eq!(player_scripts.id(), InstanceId::new(8));
}

#[test]
fn fallback_class_names() {
    let project = RawProject {
        name: "Game".to_string(),
        tree: description(None, None, vec![child("Stuff", description(None, None, vec![]))]),
    };
    let project = load(project, vec![]).unwrap();
    let root = project.tree.root();
    assert_eq!(root.class_name(), "DataModel");
    assert_eq!(root.children()[0].class_name(), "Folder");
    assert_eq!(root.children()[0].name(), "Stuff");
}

#[test]
fn directories_become_folders_before_described_children() {
    let project = RawProject {
        name: "Game".to_string(),
        tree: description(
            None,
            Some("src"),
            vec![child("Lighting", description(Some("Lighting"), None, vec![]))],
        ),
    };
    let scans = vec![DirectoryScan::Entries(vec![
        folder("/proj/src", "modules", vec![file("/proj/src/modules", "a.lua")]),
        ScannedEntry {
            path: "/proj/src/link".to_string(),
            file_name: b"link".to_vec(),
            kind: EntryKind::Other,
        },
        folder("/proj/src", "empty", vec![]),
        ScannedEntry {
            path: "/proj/src/\u{FFFD}x".to_string(),
            file_name: vec![0xff, b'x'],
            kind: EntryKind::Directory(DirectoryScan::Entries(vec![])),
        },
    ])];
    let project = load(project, scans).unwrap();
    let root = project.tree.root();
    let names: Vec<&str> = root.children().iter().map(|c| c.name()).collect();
    assert_eq!(names, vec!["empty", "modules", "\u{FFFD}x", "Lighting"]);
    assert_eq!(root.children()[0].class_name(), "Folder");
    assert_eq!(root.children()[1].children()[0].name(), "a");
    let ids: Vec<u64> = project.tree.depth_first_ids().iter().map(|id| id.value()).collect();
    assert_eq!(ids, vec![1, 2, 3, 4, 5, 6]);
    assert_eq!(project.scripts[0].relative_path, "src/modules/a.lua");
}

#[test]
fn unreadable_directory_is_a_read_error() {
    let project = RawProject { name: "Game".to_string(), tree: description(None, Some("src"), vec![]) };
    let err = load(project, vec![DirectoryScan::Unreadable("No such file or directory (os error 2)".to_string())]).unwrap_err();
    assert_eq!(
        err,
        ProjectError::Read {
            path: "/proj/src".to_string(),
            source: "No such file or directory (os error 2)".to_string()
        }
    );
}

#[test]
fn file_where_a_directory_is_expected() {
    let project = RawProject { name: "Game".to_string(), tree: description(None, Some("main.lua"), vec![]) };
    let err = load(project, vec![DirectoryScan::NotDirectory]).unwrap_err();
    assert_eq!(err, ProjectError::ExpectedDirectory("/proj/main.lua".to_string()));
}

#[test]
fn unreadable_entry_is_a_read_error() {
    let project = RawProject { name: "Game".to_string(), tree: description(None, Some("src"), vec![]) };
    let scans = vec![DirectoryScan::Entries(vec![ScannedEntry {
        path: "/proj/src/a.lua".to_string(),
        file_name: b"a.lua".to_vec(),
        kind: EntryKind::Unreadable("permission denied".to_string()),
    }])];
    let err = load(project, scans).unwrap_err();
    assert_eq!(
        err,
        ProjectError::Read { path: "/proj/src/a.lua".to_string(), source: "permission denied".to_string() }
    );
}

#[test]
fn init_scripts_are_refused() {
    let project = RawProject { name: "Game".to_string(), tree: description(None, Some("src"), vec![]) };
    let scans = vec![DirectoryScan::Entries(vec![file("/proj/src", "init.server.lua")])];
    let err = load(project, scans).unwrap_err();
    assert_eq!(err, ProjectError::UnsupportedScriptLayout("/proj/src/init.server.lua".to_string()));
}

#[test]
fn script_outside_the_root_is_refused() {
    let project = RawProject { name: "Game".to_string(), tree: description(None, Some("../elsewhere"), vec![]) };
    let scans = vec![DirectoryScan::Entries(vec![file("/elsewhere", "a.lua")])];
    let err = load(project, scans).unwrap_err();
    assert_eq!(err, ProjectError::PathOutsideProject("/elsewhere/a.lua".to_string()));
}

#[test]
fn first_error_in_name_order_wins() {
    let project = RawProject { name: "Game".to_string(), tree: description(None, Some("src"), vec![]) };
    let scans = vec![DirectoryScan::Entries(vec![
        file("/proj/src", "z.lua"),
        file("/proj/src", "init.lua"),
        ScannedEntry {
            path: "/proj/src/b".to_string(),
            file_name: b"b".to_vec(),
            kind: EntryKind::Directory(DirectoryScan::NotDirectory),
        },
    ])];
    let err = load(project, scans).unwrap_err();
    assert_eq!(err, ProjectError::ExpectedDirectory("/proj/src/b".to_string()));
}

#[test]
fn script_descriptors() {
    assert_eq!(
        script_descriptor("/p/main.server.lua", b"main.server.lua").unwrap(),
        Some(("main".to_string(), "Script"))
    );
    assert_eq!(
        script_descriptor("/p/ui.client.lua", b"ui.client.lua").unwrap(),
        Some(("ui".to_string(), "LocalScript"))
    );
    assert_eq!(
        script_descriptor("/p/util.lua", b"util.lua").unwrap(),
        Some(("util".to_string(), "ModuleScript"))
    );
    assert_eq!(
        script_descriptor("/p/a.b.lua", b"a.b.lua").unwrap(),
        Some(("a.b".to_string(), "ModuleScript"))
    );
    assert_eq!(
        script_descriptor("/p/INIT.lua", b"INIT.lua").unwrap(),
        Some(("INIT".to_string(), "ModuleScript"))
    );
    assert_eq!(
        script_descriptor("/p/é.lua", "é.lua".as_bytes()).unwrap(),
        Some(("é".to_string(), "ModuleScript"))
    );
    assert_eq!(script_descriptor("/p/.lua", b".lua").unwrap(), None);
    assert_eq!(script_descriptor("/p/.server.lua", b".server.lua").unwrap(), None);
    assert_eq!(script_descriptor("/p/readme.md", b"readme.md").unwrap(), None);
    assert_eq!(script_descriptor("/p/a.lua.bak", b"a.lua.bak").unwrap(), None);
    assert_eq!(script_descriptor("/p/lua", b"lua").unwrap(), None);
    assert_eq!(script_descriptor("/p/x", &[0xff, b'.', b'l', b'u', b'a']).unwrap(), None);
    assert_eq!(
        script_descriptor("/p/init.lua", b"init.lua"),
        Err(ProjectError::UnsupportedScriptLayout("/p/init.lua".to_string()))
    );
    assert_eq!(
        script_descriptor("/p/init.client.lua", b"init.client.lua"),
        Err(ProjectError::UnsupportedScriptLayout("/p/init.client.lua".to_string()))
    );
}

#[test]
fn project_file_and_root() {
    assert_eq!(project_file_candidate("/proj", true), "/proj/default.project.json");
    assert_eq!(project_file_candidate("/proj/game.project.json", false), "/proj/game.project.json");
    assert_eq!(project_root("/proj/default.project.json"), Some("/proj".to_string()));
    assert_eq!(project_root("/"), None);
}

#[test]
fn error_messages() {
    assert_eq!(
        ProjectError::ProjectFileNotFound("/x/default.project.json".to_string()).message(),
        "project file not found: /x/default.project.json"
    );
    assert_eq!(
        ProjectError::Read { path: "/x".to_string(), source: "denied".to_string() }.message(),
        "failed to read /x: denied"
    );
    assert_eq!(
        ProjectError::Parse { path: "/x.json".to_string(), source: "EOF".to_string() }.message(),
        "failed to parse /x.json: EOF"
    );
    assert_eq!(ProjectError::ExpectedDirectory("/x".to_string()).message(), "expected a directory at /x");
    assert_eq!(
        ProjectError::PathOutsideProject("/y".to_string()).message(),
        "path is outside the project root: /y"
    );
    assert_eq!(
        ProjectError::UnsupportedScriptLayout("/x/init.lua".to_string()).message(),
        "init scripts are not supported yet: /x/init.lua"
    );
    assert_eq!(
        ProjectError::Tree(ProjectTreeError::DuplicateInstanceId(InstanceId::new(12))).message(),
        "duplicate instance id: 12"
    );
}

#[test]
fn command_error_from_project_error() {
    let answer = ProjectCommandError::from(ProjectError::ExpectedDirectory("/x".to_string()));
    assert_eq!(answer.code, "project_load_failed");
    assert_eq!(answer.message, "expected a directory at /x");
}

#[test]
fn snapshot_copies_the_project() {
    let (project, scans) = script_only_project();
    let project = load(project, scans).unwrap();
    let snapshot = ProjectSnapshot::from(&project);
    assert_eq!(snapshot.name, "Rune Script Fixture");
    assert_eq!(snapshot.project_file, "/proj/default.project.json");
    assert_eq!(snapshot.root.id, 1);
    assert_eq!(snapshot.root.class_name, "DataModel");
    assert_eq!(snapshot.root.children.len(), 3);
    assert_eq!(snapshot.root.children[0].children[1].name, "util");
    assert_eq!(snapshot.root.children[0].children[1].id, 4);
    assert_eq!(snapshot.scripts.len(), 4);
    assert_eq!(snapshot.scripts[2].relative_path, "src/server/main.server.lua");
    assert_eq!(snapshot.scripts[3].class_name, "LocalScript");
    assert_eq!(snapshot.scripts[3].id, 9);
}

#[test]
fn listing_order_does_not_change_the_project() {
    let (project_a, scans_a) = script_only_project();
    let (project_b, mut scans_b) = script_only_project();
    if let DirectoryScan::Entries(entries) = &mut scans_b[0] {
        entries.reverse();
    }
    let a = load(project_a, scans_a).unwrap();
    let b = load(project_b, scans_b).unwrap();
    assert_eq!(a.tree, b.tree);
    assert_eq!(a.scripts, b.scripts);
    assert_eq!(a.name, b.name);
}

#[test]
fn every_script_is_an_instance_of_the_tree() {
    let (project, scans) = script_only_project();
    let project = load(project, scans).unwrap();
    for script in &project.scripts {
        let node = project.tree.find(script.id).unwrap();
        assert_eq!(node.name(), script.name);
        assert_eq!(node.class_name(), script.class_name);
        assert!(node.children().is_empty());
    }
}
