use rsplug::assembly::{
    assemble_loaded_plugin, ignored_entries, loaded_with, placed_entries, script_only_plugin,
};
use rsplug::config::SetupScript;
use rsplug::files::FileSource;
use rsplug::identity::RepoSnapshotIdentity;
use rsplug::inventory::build;
use rsplug::lazy_type::{LazyType, LoadEvent};
use rsplug::manifest::{ManifestEntry, ManifestKind};
use rsplug::order::SortedSet;
use rsplug::path::Path;
use std::sync::Arc;

fn paths(list: &[&str]) -> Vec<Path> {
    list.iter().map(|s| Path::parse(s)).collect()
}

fn texts(list: &[Path]) -> Vec<String> {
    list.iter().map(Path::to_text).collect()
}

fn opt(events: Vec<LoadEvent>) -> LazyType {
    let mut set = SortedSet::new();
    for event in events {
        set.insert(event);
    }
    LazyType::Opt(set)
}

fn event(name: &str) -> LoadEvent {
    LoadEvent::Autocmd(name.to_string())
}

fn module(name: &str) -> LoadEvent {
    LoadEvent::LuaModule(name.to_string())
}

fn source() -> Arc<FileSource> {
    let entry = |path: &str, kind: ManifestKind| ManifestEntry {
        path: Path::parse(path),
        kind,
        symlink_target: None,
        followed_kind: None,
    };
    Arc::new(FileSource::Directory {
        root: Path::parse("/snap"),
        inventory: build(
            vec![entry("lua", ManifestKind::Dir), entry("lua/m.lua", ManifestKind::File)],
            None,
        ),
    })
}

fn identity() -> RepoSnapshotIdentity {
    RepoSnapshotIdentity::new(Path::parse("github.com/o/r"), vec![1], None, Vec::new(), None)
}

#[test]
fn documentation_is_placed_file_by_file() {
    let top = paths(&["doc", "lua", "tests"]);
    let docs = paths(&["doc/a.txt", "doc/b.txt"]);
    assert_eq!(
        texts(&placed_entries(&top, &vec![false, false, true], &docs)),
        ["lua", "doc/a.txt", "doc/b.txt"]
    );
    assert_eq!(texts(&placed_entries(&top, &vec![true, false, false], &docs)), ["lua", "tests"]);
}

#[test]
fn packages_are_assembled_from_snapshots() {
    let plugin = assemble_loaded_plugin(
        &source(),
        &identity(),
        &paths(&["lua"]),
        &vec!["m".to_string()],
        opt(vec![event("BufRead")]),
        Some("r".to_string()),
        SetupScript::default(),
        3,
        false,
        false,
    );
    assert_eq!(plugin.files.len(), 1);
    assert!(plugin.files.contains(&Path::parse("lua")));
    assert!(plugin.source_names.contains(&"r".to_string()));
    assert_eq!(plugin.order, 3);
    assert!(!plugin.merge_enabled);
    match plugin.lazy_type {
        LazyType::Opt(events) => {
            assert_eq!(events.len(), 2);
            assert!(events.contains(&event("BufRead")));
            assert!(events.contains(&module("m")));
        }
        LazyType::Start => panic!("expected opt"),
    }
}

#[test]
fn packages_of_startup_wait_for_no_module() {
    let plugin = assemble_loaded_plugin(
        &source(),
        &identity(),
        &paths(&["lua"]),
        &vec!["m".to_string()],
        LazyType::Start,
        None,
        SetupScript::default(),
        0,
        true,
        false,
    );
    assert!(matches!(plugin.lazy_type, LazyType::Start));
    assert!(plugin.source_names.is_empty());
}

#[test]
fn dependencies_load_with_what_needs_them() {
    let a = opt(vec![event("A")]);
    let b = opt(vec![event("B")]);
    match loaded_with(opt(vec![]), &vec![&a, &b]) {
        LazyType::Opt(events) => {
            assert_eq!(events.len(), 2);
            assert!(events.contains(&event("A")) && events.contains(&event("B")));
        }
        LazyType::Start => panic!("expected opt"),
    }
    assert!(matches!(
        loaded_with(opt(vec![event("X")]), &vec![&a, &LazyType::Start]),
        LazyType::Start
    ));
    assert!(matches!(loaded_with(LazyType::Start, &vec![]), LazyType::Start));
}

#[test]
fn rules_leave_out_top_level_entries() {
    let entry = |path: &str, kind: ManifestKind| ManifestEntry {
        path: Path::parse(path),
        kind,
        symlink_target: None,
        followed_kind: None,
    };
    let inventory = build(
        vec![
            entry(".git", ManifestKind::Dir),
            entry("README.md", ManifestKind::File),
            entry("lua", ManifestKind::Dir),
            entry("tests", ManifestKind::Dir),
        ],
        None,
    );
    let rules: Vec<String> = ["tests/", "*.md", ".git", "lua.md"]
        .iter()
        .map(|s| s.to_string())
        .collect();
    assert_eq!(texts(inventory.top_level()), [".git", "README.md", "lua", "tests"]);
    assert_eq!(ignored_entries(&inventory, &rules), [false, true, false, true]);
}

#[test]
fn scripts_alone_make_a_package_without_files() {
    let plugin = script_only_plugin(
        Some("n".to_string()),
        LazyType::Start,
        SetupScript::default(),
        7,
        true,
    );
    assert!(plugin.files.is_empty());
    assert_eq!(plugin.source_names.len(), 1);
    assert_eq!(plugin.source_names.at(0), "n");
    assert_eq!(plugin.order, 7);
    assert!(plugin.merge_enabled && !plugin.is_lazy_registration && !plugin.dotgit);
}
