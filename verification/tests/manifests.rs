use rsplug::files::{FileSource, MergeType};
use rsplug::identity::RepoSnapshotIdentity;
use rsplug::inventory::{
    build, content_digest, doc_entries, is_listed, lua_modules, searches, sort_entries, Seen,
};
use rsplug::manifest::{
    normalize_relative_path, ManifestEntry, ManifestKind, SnapshotManifest, MANIFEST_FILE,
    MANIFEST_SCHEMA,
};
use rsplug::path::Path;

fn entry(path: &str, kind: ManifestKind) -> ManifestEntry {
    ManifestEntry {
        path: Path::parse(path),
        kind,
        symlink_target: None,
        followed_kind: None,
    }
}

fn children(manifest: &SnapshotManifest, parent: &str) -> Vec<String> {
    let names = manifest.child_names(&Path::parse(parent));
    (0..names.len()).map(|i| names.at(i).clone()).collect()
}

fn roots(manifest: &SnapshotManifest) -> Vec<String> {
    let roots = manifest.lua_roots();
    (0..roots.len()).map(|i| roots.at(i).clone()).collect()
}

fn texts(list: &[Path]) -> Vec<String> {
    list.iter().map(|p| p.to_text()).collect()
}

#[test]
fn indexed_queries_do_not_use_serialized_vector_scans() {
    let manifest = SnapshotManifest::new(
        MANIFEST_SCHEMA,
        vec![
            entry("lua", ManifestKind::Dir),
            entry("lua/init.lua", ManifestKind::File),
        ],
        None,
    );
    assert_eq!(
        manifest.kind_of(&Path::parse("lua/init.lua")),
        Some(ManifestKind::File)
    );
    assert_eq!(children(&manifest, "lua"), vec!["init.lua"]);
    assert_eq!(texts(manifest.top_level()), vec!["lua"]);
    assert_eq!(roots(&manifest), vec!["init"]);
    assert!(manifest.validate());
}

#[test]
fn indexed_queries_include_in_snapshot_symlink_children() {
    let manifest = SnapshotManifest::new(
        MANIFEST_SCHEMA,
        vec![
            ManifestEntry {
                path: Path::parse("link"),
                kind: ManifestKind::Symlink,
                symlink_target: Some(Path::parse("target")),
                followed_kind: Some(ManifestKind::Dir),
            },
            entry("target", ManifestKind::Dir),
            entry("target/init.lua", ManifestKind::File),
        ],
        None,
    );
    assert_eq!(children(&manifest, "link"), vec!["init.lua"]);
    assert_eq!(
        manifest.kind_of(&Path::parse("link/init.lua")),
        Some(ManifestKind::File)
    );
}

#[test]
fn invalid_schema_and_traversal_are_cache_misses() {
    let mut manifest = SnapshotManifest::new(
        MANIFEST_SCHEMA + 1,
        vec![entry("../escape", ManifestKind::File)],
        None,
    );
    assert!(!manifest.validate());
    manifest.schema = MANIFEST_SCHEMA;
    assert!(!manifest.validate());
}

#[test]
fn reindex_derives_lua_file_stems_as_module_roots() {
    let entries = sort_entries(vec![
        entry("lua/file_module.lua", ManifestKind::File),
        entry("lua/dir_module/init.lua", ManifestKind::File),
        entry("lua", ManifestKind::Dir),
        entry("lua/dir_module", ManifestKind::Dir),
    ]);
    let manifest = build(entries, None);
    assert_eq!(roots(&manifest), vec!["dir_module", "file_module"]);
}

#[test]
fn inventories_are_sorted_and_valid() {
    let entries = sort_entries(vec![
        entry("b", ManifestKind::File),
        entry("a/x", ManifestKind::File),
        entry("a", ManifestKind::Dir),
        entry("doc", ManifestKind::Dir),
        entry("doc/tags.txt", ManifestKind::File),
    ]);
    let manifest = build(entries, Some(7));
    let listed: Vec<String> = manifest.entries.iter().map(|e| e.path.to_text()).collect();
    assert_eq!(listed, vec!["a", "a/x", "b", "doc", "doc/tags.txt"]);
    assert!(manifest.validate());
    assert_eq!(manifest.schema, MANIFEST_SCHEMA);
    assert_eq!(manifest.content_digest, Some(7));
    assert_eq!(texts(manifest.doc_files()), vec!["doc/tags.txt"]);
    let twice = build(
        vec![entry("a", ManifestKind::File), entry("a", ManifestKind::File)],
        None,
    );
    assert!(!twice.validate());
}

#[test]
fn walks_take_down_kinds() {
    let seen = |is_symlink: bool, is_dir: bool, target_is_dir: Option<bool>| Seen {
        path: Path::parse("x"),
        is_symlink,
        is_dir,
        target: is_symlink.then_some(Path::parse("y")),
        target_is_dir,
    };
    assert_eq!(seen(false, true, None).entry().kind, ManifestKind::Dir);
    assert_eq!(seen(false, false, None).entry().kind, ManifestKind::File);
    let link = seen(true, false, Some(true)).entry();
    assert_eq!(link.kind, ManifestKind::Symlink);
    assert_eq!(link.symlink_target.unwrap().to_text(), "y");
    assert_eq!(link.followed_kind, Some(ManifestKind::Dir));
    assert_eq!(seen(true, false, None).entry().followed_kind, None);
    assert_eq!(
        seen(true, false, Some(false)).entry().followed_kind,
        Some(ManifestKind::File)
    );
}

#[test]
fn walks_leave_out_what_is_not_content() {
    let mark = ".rsplug_build_success";
    assert!(!is_listed(MANIFEST_FILE, true, mark));
    assert!(!is_listed(mark, true, mark));
    assert!(!is_listed(".git", false, mark));
    assert!(is_listed(".git", true, mark));
    assert!(is_listed("plugin", false, mark));
}

#[test]
fn digests_cover_paths_and_contents() {
    let entries = vec![
        entry("d", ManifestKind::Dir),
        entry("d/f", ManifestKind::File),
    ];
    let digest = content_digest(&entries, &vec![Vec::new(), b"data".to_vec()]);
    assert_eq!(digest, xxhash_rust::xxh3::xxh3_128(b"d/f\0data\0"));
    assert_ne!(
        digest,
        content_digest(&entries, &vec![Vec::new(), b"other".to_vec()])
    );
}

#[test]
fn modules_are_named_once() {
    let list: Vec<(String, bool)> = [
        ("a.lua", false),
        ("a", true),
        ("b", true),
        (".lua", false),
        ("c.x.lua", false),
    ]
    .iter()
    .map(|(name, dir)| (name.to_string(), *dir))
    .collect();
    assert_eq!(lua_modules(&list), vec!["a", "b", ".lua", "c.x"]);
    assert!(searches(128, false));
    assert!(!searches(129, false));
    assert!(!searches(0, true));
}

#[test]
fn links_are_resolved_inside_the_snapshot() {
    let resolve = |parent: &str, target: &str| {
        normalize_relative_path(&Path::parse(parent), &Path::parse(target)).map(|p| p.to_text())
    };
    assert_eq!(resolve("a/b", "../c"), Some("a/c".to_string()));
    assert_eq!(resolve("a", "./b"), Some("a/b".to_string()));
    assert_eq!(resolve("a", "../../b"), None);
    assert_eq!(resolve("a", "/b"), None);
    assert_eq!(resolve("a", ".."), None);
}

#[test]
fn documentation_files_conflict() {
    let source = std::sync::Arc::new(FileSource::File { data: Vec::new() });
    let identity =
        RepoSnapshotIdentity::new(Path::parse("r"), b"rev".to_vec(), None, Vec::new(), None);
    let entries = doc_entries(
        &vec![Path::parse("doc/a.txt"), Path::parse("doc/b.txt")],
        &source,
        &identity,
    );
    assert_eq!(entries.len(), 2);
    assert_eq!(entries[1].0.to_text(), "doc/b.txt");
    assert_eq!(entries[1].1.merge_type, MergeType::Conflict);
    assert_eq!(entries[1].1.identity.relative_path().to_text(), "doc/b.txt");
}

#[test]
fn only_files_directly_in_lua_lose_their_suffix() {
    let manifest = SnapshotManifest::new(
        MANIFEST_SCHEMA,
        vec![
            entry("lua", ManifestKind::Dir),
            entry("lua/foo.nvim", ManifestKind::Dir),
            entry("lua/foo.nvim/init.lua", ManifestKind::File),
        ],
        None,
    );
    assert_eq!(roots(&manifest), vec!["foo.nvim"]);
    let direct = SnapshotManifest::new(
        MANIFEST_SCHEMA,
        vec![
            entry("lua", ManifestKind::Dir),
            entry("lua/bar.nvim", ManifestKind::File),
        ],
        None,
    );
    assert_eq!(roots(&direct), vec!["bar"]);
}

#[test]
fn directories_shown_by_links_have_children() {
    let manifest = SnapshotManifest::new(
        MANIFEST_SCHEMA,
        vec![
            ManifestEntry {
                path: Path::parse("link"),
                kind: ManifestKind::Symlink,
                symlink_target: Some(Path::parse("target")),
                followed_kind: Some(ManifestKind::Dir),
            },
            entry("target", ManifestKind::Dir),
            entry("target/sub", ManifestKind::Dir),
            entry("target/sub/x.lua", ManifestKind::File),
        ],
        None,
    );
    assert_eq!(children(&manifest, "link"), vec!["sub"]);
    assert_eq!(
        manifest.kind_of(&Path::parse("link/sub")),
        Some(ManifestKind::Dir)
    );
    assert_eq!(children(&manifest, "link/sub"), vec!["x.lua"]);
    assert_eq!(children(&manifest, "target/sub"), vec!["x.lua"]);
}

#[test]
fn indexing_again_changes_no_answer() {
    let mut manifest = SnapshotManifest::new(
        MANIFEST_SCHEMA,
        vec![
            entry("doc", ManifestKind::Dir),
            entry("doc/b.txt", ManifestKind::File),
            entry("doc/sub", ManifestKind::Dir),
            entry("doc/sub/a.txt", ManifestKind::File),
            entry("ftplugin", ManifestKind::Dir),
            entry("ftplugin/lua.vim", ManifestKind::File),
            entry("lua", ManifestKind::Dir),
            entry("lua/z.lua", ManifestKind::File),
        ],
        Some(9),
    );
    assert!(manifest.validate());
    let answers = |m: &SnapshotManifest| {
        (
            texts(m.top_level()),
            texts(m.doc_files()),
            texts(m.ftplugin_files()),
            roots(m),
        )
    };
    let first = answers(&manifest);
    assert_eq!(first.0, ["doc", "ftplugin", "lua"]);
    assert_eq!(first.1, ["doc/b.txt", "doc/sub/a.txt"]);
    assert_eq!(first.2, ["ftplugin/lua.vim"]);
    assert_eq!(first.3, ["z"]);
    manifest.reindex();
    assert_eq!(answers(&manifest), first);
    manifest.reindex();
    assert_eq!(answers(&manifest), first);
    assert_eq!(
        (manifest.schema, manifest.content_digest, manifest.entries.len()),
        (MANIFEST_SCHEMA, Some(9), 8)
    );
}
