use rsplug::config::{SetupScript, SetupScriptOne};
use rsplug::files::{
    dirs_mergeable, entries_mergeable, normalize_sealed, union_files, FileItem, FileKind,
    FileSource, MergeType,
};
use rsplug::identity::{FileIdentity, RepoFileIdentity, RepoSnapshotIdentity};
use rsplug::lazy_type::{LazyType, LoadEvent};
use rsplug::loaded::{LoadedPlugin, PluginId};
use rsplug::manifest::{ManifestEntry, ManifestKind, SnapshotManifest, MANIFEST_SCHEMA};
use rsplug::merge::MergePlanner;
use rsplug::order::{Key, Order, SortedMap, SortedSet};
use rsplug::pack_plan::ft_index::{
    build_ft_index_from_inventories, collect_ftplugin_files, index_scanned,
};
use rsplug::pack_plan::{Files, PackPlan};
use rsplug::path::Path;
use std::sync::Arc;

fn digest(data: &[u8]) -> u128 {
    xxhash_rust::xxh3::xxh3_128(data)
}

fn plugin_id(data: &[u8]) -> String {
    PluginId {
        digest: digest(data),
    }
    .as_str()
}

fn snap(repo: &str, rev: &[u8]) -> RepoSnapshotIdentity {
    RepoSnapshotIdentity::new(Path::parse(repo), rev.to_vec(), None, Vec::new(), None)
}

/// A snapshot at `dir` with the given files, and the directories above them.
fn snapshot(dir: &str, files: &[&str]) -> Arc<FileSource> {
    let mut paths: Vec<(String, ManifestKind)> = Vec::new();
    for file in files {
        let parts: Vec<&str> = file.split('/').collect();
        for n in 1..parts.len() {
            let dir = (parts[..n].join("/"), ManifestKind::Dir);
            if !paths.contains(&dir) {
                paths.push(dir);
            }
        }
        paths.push((file.to_string(), ManifestKind::File));
    }
    let entries = paths
        .into_iter()
        .map(|(path, kind)| ManifestEntry {
            path: Path::parse(&path),
            kind,
            symlink_target: None,
            followed_kind: None,
        })
        .collect();
    let sorted = rsplug::inventory::sort_entries(entries);
    Arc::new(FileSource::Directory {
        root: Path::parse(dir),
        inventory: SnapshotManifest::new(MANIFEST_SCHEMA, sorted, None),
    })
}

fn item(identity: RepoSnapshotIdentity, rel: &str, source: &Arc<FileSource>) -> (Path, FileItem) {
    (
        Path::parse(rel),
        FileItem::new(
            source.clone(),
            FileIdentity::RepoFile(RepoFileIdentity::new(identity, Path::parse(rel))),
            MergeType::Conflict,
        ),
    )
}

fn repo_file(identity: RepoSnapshotIdentity, rel: &str, dir: &str) -> (Path, FileItem) {
    item(identity, rel, &snapshot(dir, &[rel]))
}

fn generated(path: &str, data: &[u8], merge_type: MergeType) -> (Path, FileItem) {
    (
        Path::parse(path),
        FileItem::new(
            Arc::new(FileSource::File {
                data: data.to_vec(),
            }),
            FileIdentity::GeneratedFile {
                path: Path::parse(path),
                data_hash: digest(data),
            },
            merge_type,
        ),
    )
}

fn files(list: Vec<(Path, FileItem)>) -> SortedMap<Path, FileItem> {
    let mut map = SortedMap::new();
    for (path, item) in list {
        map.insert(path, item);
    }
    map
}

fn names(list: &[&str]) -> SortedSet<String> {
    let mut set = SortedSet::new();
    for name in list {
        set.insert(name.to_string());
    }
    set
}

fn synth(list: Vec<(Path, FileItem)>) -> LoadedPlugin {
    LoadedPlugin {
        source_names: SortedSet::new(),
        lazy_type: LazyType::Start,
        files: files(list),
        script: SetupScript::default(),
        order: 0,
        merge_enabled: true,
        is_lazy_registration: false,
        dotgit: false,
    }
}

fn paths(map: &SortedMap<Path, FileItem>) -> Vec<String> {
    (0..map.len()).map(|i| map.key_at(i).to_text()).collect()
}

fn members(set: &SortedSet<String>) -> Vec<String> {
    (0..set.len()).map(|i| set.at(i).clone()).collect()
}

fn opt(events: &[&str]) -> LazyType {
    let mut set = SortedSet::new();
    for event in events {
        set.insert(LoadEvent::Autocmd(event.to_string()));
    }
    LazyType::Opt(set)
}

#[test]
fn load_keeps_dependency_order_in_lazy_trigger_records() {
    let make_plugin = |order: usize, file: &str, data: &[u8]| LoadedPlugin {
        lazy_type: opt(&["VimEnter"]),
        order,
        merge_enabled: false,
        ..synth(vec![generated(file, data, MergeType::Conflict)])
    };
    let dependency = make_plugin(0, "plugin/dependency.lua", b"dependency");
    let dependent = make_plugin(1, "plugin/dependent.lua", b"dependent");
    let dependency_id = dependency.plugin_id().as_str();
    let dependent_id = dependent.plugin_id().as_str();

    let mut plan = PackPlan::new();
    plan.load(vec![dependent, dependency]);
    assert_eq!(
        plan.ctl.event_ids(&"VimEnter".to_string()),
        vec![dependency_id, dependent_id],
        "lazy event registration must preserve dependency order"
    );
}

fn comes_first(a: &LoadedPlugin, b: &LoadedPlugin) -> std::cmp::Ordering {
    let lazy = match a.lazy_type.compare(&b.lazy_type) {
        Order::Less => std::cmp::Ordering::Less,
        Order::Equal => std::cmp::Ordering::Equal,
        Order::Greater => std::cmp::Ordering::Greater,
    };
    lazy.then(a.order.cmp(&b.order))
        .then(a.is_lazy_registration.cmp(&b.is_lazy_registration))
        .then(a.plugin_id().as_str().cmp(&b.plugin_id().as_str()))
}

/// Merges with a shifting vector; only the identities of the packages are compared.
fn reference_merge(mut items: Vec<LoadedPlugin>) -> Vec<String> {
    items.sort_by(comes_first);
    let mut groups: Vec<LoadedPlugin> = Vec::new();
    for item in items {
        let mut pending = item;
        loop {
            let mut merged = false;
            for i in 0..groups.len() {
                let candidate = groups.remove(i);
                match candidate.add(pending) {
                    (merged_group, None) => {
                        pending = merged_group;
                        merged = true;
                        break;
                    }
                    (candidate, Some(rest)) => {
                        groups.insert(i, candidate);
                        pending = rest;
                    }
                }
            }
            if !merged {
                break;
            }
        }
        groups.push(pending);
    }
    let mut ids: Vec<String> = groups.iter().map(|p| p.plugin_id().as_str()).collect();
    ids.sort();
    ids
}

fn property_plugins(order: &[usize]) -> Vec<LoadedPlugin> {
    order
        .iter()
        .map(|&index| {
            let path = Path::parse(&format!("lua/mod{}/init.lua", index % 3));
            let item = FileItem::new(
                Arc::new(FileSource::File {
                    data: vec![index as u8, (index * 17) as u8],
                }),
                FileIdentity::GeneratedFile {
                    path: path.duplicated(),
                    data_hash: u128::from_ne_bytes([index as u8; 16]),
                },
                if index % 4 == 0 {
                    MergeType::Overwrite
                } else {
                    MergeType::Conflict
                },
            );
            let mut plugin = synth(vec![(path, item)]);
            plugin.order = index % 4;
            plugin.merge_enabled = index % 7 != 0;
            plugin
        })
        .collect()
}

#[test]
fn merge_reference_property_matches_randomized_small_inputs() {
    let mut state = 0x9e3779b9u32;
    for _case in 0..128 {
        let mut order = (0..8usize).collect::<Vec<_>>();
        for i in (1..order.len()).rev() {
            state = state.wrapping_mul(1_664_525).wrapping_add(1_013_904_223);
            let j = (state as usize) % (i + 1);
            order.swap(i, j);
        }
        let reference = reference_merge(property_plugins(&order));
        let plan = MergePlanner::plan(property_plugins(&order));
        let mut actual: Vec<String> = plan.iter().map(|p| p.plugin_id().as_str()).collect();
        actual.sort();
        assert_eq!(
            actual, reference,
            "merge mismatch for permutation {order:?}"
        );
    }
}

#[test]
fn merge_disabled_start_user_plugins_are_not_merged() {
    let mut disabled = synth(vec![repo_file(
        snap("github.com/owner/a", b"rev-a"),
        "plugin/a.lua",
        "/cache/a",
    )]);
    disabled.merge_enabled = false;
    let enabled = synth(vec![repo_file(
        snap("github.com/owner/b", b"rev-b"),
        "plugin/b.lua",
        "/cache/b",
    )]);

    let (_left, rest) = disabled.add(enabled);
    assert!(
        rest.is_some(),
        "merge=false must prevent start-plugin merging"
    );
}

#[test]
fn merge_disabled_opt_user_plugins_are_not_merged() {
    let mut disabled = synth(vec![repo_file(
        snap("github.com/owner/a", b"rev-a"),
        "plugin/a.lua",
        "/cache/a",
    )]);
    disabled.lazy_type = opt(&[]);
    disabled.merge_enabled = false;
    let mut enabled = synth(vec![repo_file(
        snap("github.com/owner/b", b"rev-b"),
        "plugin/b.lua",
        "/cache/b",
    )]);
    enabled.lazy_type = opt(&[]);

    let (_left, rest) = disabled.add(enabled);
    assert!(
        rest.is_some(),
        "merge=false must prevent opt-plugin merging"
    );
}

#[test]
fn merge_preserves_all_source_names() {
    let mut a = synth(vec![repo_file(
        snap("github.com/owner/a", b"rev-a"),
        "plugin/a.lua",
        "/cache/a",
    )]);
    a.source_names = names(&["a"]);
    let mut b = synth(vec![repo_file(
        snap("github.com/owner/b", b"rev-b"),
        "plugin/b.lua",
        "/cache/b",
    )]);
    b.source_names = names(&["b"]);

    let (merged, rest) = a.add(b);
    assert!(rest.is_none(), "disjoint start plugins should merge");
    assert_eq!(
        members(&merged.source_names),
        vec!["a", "b"],
        "merge must preserve both sides' on_source names"
    );
}

#[test]
fn copy_plugin_id_is_independent_of_absolute_cache_path() {
    let make = |dir: &str| {
        synth(vec![repo_file(
            snap(
                "github.com/owner/repo",
                b"0123456789012345678901234567890123456789",
            ),
            "plugin/init.lua",
            dir,
        )])
        .plugin_id()
        .as_str()
    };
    assert_eq!(
        make("/machineA/cache/owner/repo"),
        make("/machineB/cache/owner/repo"),
        "absolute cache path must not affect plugin_id"
    );
}

#[test]
fn copy_plugin_id_reflects_repo_cache_dir_and_head_rev() {
    let make = |repo: &str, rev: &[u8]| {
        synth(vec![repo_file(snap(repo, rev), "plugin/init.lua", "/cache")])
            .plugin_id()
            .as_str()
    };
    let base = make(
        "github.com/owner/repo",
        b"aaaaaaaaaaaaaaaaaaaaaaaaaaaaaaaaaaaaaaaa",
    );
    assert_ne!(
        base,
        make(
            "github.com/owner/other",
            b"aaaaaaaaaaaaaaaaaaaaaaaaaaaaaaaaaaaaaaaa"
        )
    );
    assert_ne!(
        base,
        make(
            "github.com/owner/repo",
            b"bbbbbbbbbbbbbbbbbbbbbbbbbbbbbbbbbbbbbbbb"
        )
    );
}

#[test]
fn merged_copy_plugin_id_reflects_all_repos() {
    let snap_a = || {
        snap(
            "github.com/owner/a",
            b"revAaaaaaaaaaaaaaaaaaaaaaaaaaaaaaaaa",
        )
    };
    let snap_b = || {
        snap(
            "github.com/owner/b",
            b"revBbbbbbbbbbbbbbbbbbbbbbbbbbbbbbbbb",
        )
    };
    let a = || synth(vec![repo_file(snap_a(), "plugin/a.lua", "/cache/a")]);
    let b = || synth(vec![repo_file(snap_b(), "plugin/b.lua", "/cache/b")]);
    let both = synth(vec![
        repo_file(snap_a(), "plugin/a.lua", "/cache/a"),
        repo_file(snap_b(), "plugin/b.lua", "/cache/b"),
    ]);

    let merged = MergePlanner::plan(vec![a(), b()]);
    assert_eq!(
        merged.len(),
        1,
        "two mergeable start plugins should merge into one"
    );
    let merged_id = merged[0].plugin_id().as_str();

    assert_eq!(
        merged_id,
        both.plugin_id().as_str(),
        "merged id must equal the directly-constructed both-files plugin"
    );
    assert_ne!(
        merged_id,
        a().plugin_id().as_str(),
        "merged id must differ from repo-a-only id"
    );
    assert_ne!(
        merged_id,
        b().plugin_id().as_str(),
        "merged id must differ from repo-b-only id"
    );
}

#[test]
fn snapshot_key_is_plain_rev_when_no_build_inputs() {
    let id = snap(
        "github.com/o/r",
        b"0123456789012345678901234567890123456789",
    );
    assert_eq!(
        id.snapshot_key(),
        "0123456789012345678901234567890123456789"
    );
}

fn identity(
    repo: &str,
    dirty: Option<u128>,
    build: &[&str],
    lua: Option<&str>,
) -> RepoSnapshotIdentity {
    RepoSnapshotIdentity::new(
        Path::parse(repo),
        b"0123456789012345678901234567890123456789".to_vec(),
        dirty,
        build.iter().map(|s| s.to_string()).collect(),
        lua.map(|s| s.to_string()),
    )
}

#[test]
fn snapshot_key_has_v1_suffix_and_tracks_build_inputs() {
    let key = identity("github.com/o/r", None, &["make"], None).snapshot_key();
    assert!(
        key.starts_with("0123456789012345678901234567890123456789__v1_"),
        "got {key}"
    );
    let other = identity("github.com/o/r", None, &["cmake"], None).snapshot_key();
    assert_ne!(key, other);
}

#[test]
fn snapshot_key_ignores_dirty_but_reflects_lua_build() {
    let mk = |dirty, lua| identity("r", dirty, &["make"], lua);
    let base = mk(None, None);
    let with_dirty = mk(Some(u128::from_ne_bytes([1u8; 16])), None);
    assert_eq!(base.snapshot_key(), with_dirty.snapshot_key());
    let with_lua = mk(None, Some("vim.cmd('x')"));
    assert_ne!(base.snapshot_key(), with_lua.snapshot_key());
}

#[test]
fn snapshot_key_ignores_repo_cache_dir() {
    let a = identity("github.com/o/a", None, &[], None);
    let b = identity("github.com/o/b", None, &[], None);
    assert_eq!(a.snapshot_key(), b.snapshot_key());
}

#[test]
fn generated_file_id_reflects_path_and_data() {
    let make = |path: &str, data: &[u8]| {
        synth(vec![generated(path, data, MergeType::Overwrite)])
            .plugin_id()
            .as_str()
    };
    assert_ne!(make("plugin/a.lua", b"x"), make("plugin/b.lua", b"x"));
    assert_ne!(make("plugin/a.lua", b"x"), make("plugin/a.lua", b"y"));
    assert_eq!(make("plugin/a.lua", b"x"), make("plugin/a.lua", b"x"));
    let id = make("plugin/a.lua", b"x");
    assert_eq!(id.len(), 32);
    assert!(id.chars().all(|c| c.is_ascii_hexdigit()));
}

/// Two plugins that list a directory `lua` with one file in each.
fn two_dir_plugins(child_a: &str, child_b: &str) -> (LoadedPlugin, LoadedPlugin) {
    let a = snapshot("/cache/a", &[&format!("lua/{child_a}")]);
    let b = snapshot("/cache/b", &[&format!("lua/{child_b}")]);
    (
        synth(vec![item(snap("github.com/owner/a", b"aaaa"), "lua", &a)]),
        synth(vec![item(snap("github.com/owner/b", b"bbbb"), "lua", &b)]),
    )
}

#[test]
fn merge_disjoint_directory_children() {
    let (a, b) = two_dir_plugins("a.lua", "b.lua");
    let (merged, rest) = a.add(b);
    assert!(rest.is_none(), "disjoint directory children should merge");
    assert_eq!(paths(&merged.files), vec!["lua/a.lua", "lua/b.lua"]);
}

#[test]
fn opt_plugins_with_default_merge_still_merge() {
    let (mut a, mut b) = two_dir_plugins("a.lua", "b.lua");
    a.lazy_type = opt(&[]);
    b.lazy_type = opt(&[]);
    let (_merged, rest) = a.add(b);
    assert!(rest.is_none(), "opt plugins with merge=true should merge");
}

#[test]
fn merge_overlapping_directory_children() {
    let (a, b) = two_dir_plugins("x.lua", "x.lua");
    let (_a, rest) = a.add(b);
    assert!(rest.is_some(), "overlapping children should not merge");
}

#[test]
fn merge_directory_vs_file() {
    let a = snapshot("/cache/a", &["lua/x.lua"]);
    let b = snapshot("/cache/b", &["lua"]);
    let id = || snap("github.com/owner/repo", b"aaaa");
    let dir = synth(vec![item(id(), "lua", &a)]);
    let file = synth(vec![item(id(), "lua", &b)]);
    let (_a, rest) = dir.add(file);
    assert!(rest.is_some(), "a directory and a file must not merge");
}

#[test]
fn normalize_sealed_expands_sealed_dir_coexisting_with_descendants() {
    let a = snapshot("/cache/a", &["autoload/gin/util.vim"]);
    let b = snapshot("/cache/b", &["autoload/edisch.vim"]);
    let mut map = files(vec![
        item(snap("github.com/owner/a", b"aaaa"), "autoload", &a),
        item(
            snap("github.com/owner/b", b"bbbb"),
            "autoload/edisch.vim",
            &b,
        ),
    ]);

    normalize_sealed(&mut map);

    assert!(
        !map.contains(&Path::parse("autoload")),
        "sealed autoload must be expanded"
    );
    assert!(
        map.contains(&Path::parse("autoload/gin")),
        "autoload/gin (A's child) must remain"
    );
    assert!(
        map.contains(&Path::parse("autoload/edisch.vim")),
        "autoload/edisch.vim (B's descendant) must remain"
    );
    for i in 0..map.len() {
        if map.value_at(i).kind() == FileKind::Directory {
            let below = (0..map.len()).any(|j| {
                j != i && map.key_at(j).starts_with(map.key_at(i))
            });
            assert!(!below, "no sealed dir with descendants after normalize");
        }
    }
}

#[test]
fn split_doc_separates_doc_into_own_plugin() {
    let id = || {
        snap(
            "github.com/owner/repo",
            b"0123456789012345678901234567890123456789",
        )
    };
    let loaded = synth(vec![
        repo_file(id(), "doc/foo.txt", "/cache"),
        repo_file(id(), "doc/sub/bar.txt", "/cache"),
        repo_file(id(), "lua/x.lua", "/cache"),
    ]);

    let (rest, doc) = loaded.split_doc();

    assert_eq!(rest.files.len(), 1, "only lua/x.lua remains in rest");
    assert!(rest.files.contains(&Path::parse("lua/x.lua")));

    let doc = doc.expect("doc plugin must be Some when doc/** present");
    assert_eq!(members(&doc.source_names), vec!["_rsplug:doc"]);
    assert!(
        doc.is_lazy_registration,
        "doc plugin must be a control package"
    );
    assert_eq!(doc.files.len(), 2, "doc/foo.txt and doc/sub/bar.txt");
    assert!(doc.files.contains(&Path::parse("doc/foo.txt")));
    assert!(doc.files.contains(&Path::parse("doc/sub/bar.txt")));
    for i in 0..doc.files.len() {
        assert_eq!(
            doc.files.value_at(i).merge_type,
            MergeType::Overwrite,
            "stolen doc must be Overwrite"
        );
    }
    let (_, none) = synth(vec![repo_file(id(), "lua/x.lua", "/cache")]).split_doc();
    assert!(none.is_none());
}

#[test]
fn inventory_ft_index_matches_exact_suffix_and_subdir_order() {
    let source = snapshot(
        "/cache/ft",
        &[
            "ftplugin/lua.vim",
            "ftplugin/lua.lua",
            "ftplugin/lua_b.vim",
            "ftplugin/lua_a.lua",
            "ftplugin/lua/x.vim",
        ],
    );
    let id = plugin_id(b"inventory-ft");
    let packages = vec![(
        id.clone(),
        Files {
            is_lazy_registration: false,
            entries: vec![(Path::parse("ftplugin"), source)],
            dotgit: false,
        },
    )];
    let mut pairs = SortedMap::new();
    pairs.insert("lua".to_string(), vec![id.clone()]);
    let index = build_ft_index_from_inventories(&packages, &pairs).unwrap();
    let paths = index.get(&"lua".to_string()).unwrap().get(&id).unwrap();
    assert_eq!(
        paths,
        &vec![
            format!("opt/{id}/ftplugin/lua.vim"),
            format!("opt/{id}/ftplugin/lua.lua"),
            format!("opt/{id}/ftplugin/lua_a.lua"),
            format!("opt/{id}/ftplugin/lua_b.vim"),
            format!("opt/{id}/ftplugin/lua/x.vim"),
        ]
    );
}

#[test]
fn scanned_ftplugins_come_in_three_groups() {
    let id = "aaaaaaaaaaaaaaaaaaaaaaaaaaaaaaaa";
    let list = |names: &[&str]| names.iter().map(|s| s.to_string()).collect::<Vec<_>>();
    let found = collect_ftplugin_files(
        &list(&["lua.lua", "lua.vim", "lua_b.vim", "lua_a.lua", "foo.txt", "lua_notes.md"]),
        &list(&["x.vim", "a.lua"]),
        "lua",
        id,
    );
    assert_eq!(
        found,
        [
            "lua.vim",
            "lua.lua",
            "lua_a.lua",
            "lua_b.vim",
            "lua/a.lua",
            "lua/x.vim"
        ]
        .map(|s| format!("opt/{id}/ftplugin/{s}"))
        .to_vec()
    );
}

#[test]
fn a_plugin_that_is_planned_twice_is_one_package() {
    let make = || synth(vec![generated("plugin/a.lua", b"x", MergeType::Conflict)]);
    let mut plan = PackPlan::new();
    plan.insert(make());
    plan.insert(make());
    assert_eq!(plan.len(), 1);
    plan.insert(synth(vec![generated("plugin/b.lua", b"x", MergeType::Conflict)]));
    assert_eq!(plan.len(), 2);
}

#[test]
fn plans_do_not_depend_on_the_order_of_plugins() {
    let make = |n: usize| {
        let name = format!("plugin/{n}.lua");
        let mut p = synth(vec![generated(&name, &[n as u8], MergeType::Conflict)]);
        p.order = n;
        p.merge_enabled = n != 2;
        p
    };
    let ids = |order: [usize; 4]| {
        let plan = MergePlanner::plan(order.into_iter().map(make).collect());
        let mut ids: Vec<String> = plan.iter().map(|p| p.plugin_id().as_str()).collect();
        ids.sort();
        ids
    };
    assert_eq!(ids([0, 1, 2, 3]), ids([3, 2, 1, 0]));
    assert_eq!(ids([0, 1, 2, 3]).len(), 2);
}

#[test]
fn mergeability_is_symmetric() {
    let (a, b) = two_dir_plugins("a.lua", "b.lua");
    assert!(a.can_add(&b) && b.can_add(&a));
    assert!(dirs_mergeable(&a.files, &b.files));
    let (c, d) = two_dir_plugins("x.lua", "x.lua");
    assert!(!c.can_add(&d) && !d.can_add(&c));
    assert!(!dirs_mergeable(&c.files, &d.files));
    assert!(!entries_mergeable(
        &Path::parse("lua"),
        c.files.value_at(0),
        d.files.value_at(0)
    ));
}

#[test]
fn unions_keep_the_files_of_both_sides() {
    let (a, b) = two_dir_plugins("a.lua", "b.lua");
    let union = union_files(a.files, b.files);
    assert_eq!(paths(&union), vec!["lua/a.lua", "lua/b.lua"]);
}

#[test]
fn scripts_make_a_package_of_their_own() {
    let mut p = synth(Vec::new());
    p.script = SetupScript::from(SetupScriptOne {
        lua_start: Some("x".to_string()),
        lua_after: None,
        lua_before: None,
    });
    let mut q = synth(Vec::new());
    q.script = SetupScript::from(SetupScriptOne {
        lua_start: Some("y".to_string()),
        lua_after: None,
        lua_before: None,
    });
    assert_ne!(p.plugin_id().as_str(), q.plugin_id().as_str());
}

#[test]
fn merging_keeps_names_and_scripts() {
    let make = |n: usize| {
        let path = format!("plugin/{n}.lua");
        let mut p = synth(vec![generated(&path, &[n as u8], MergeType::Conflict)]);
        p.source_names = names(&[&format!("name{n}")]);
        p.script.lua_start = names(&[&format!("start{n}")]);
        p.script.lua_before = names(&[&format!("before{n}")]);
        p.script.lua_after = names(&[&format!("after{n}")]);
        p.merge_enabled = n != 1;
        p
    };
    let plan = LoadedPlugin::merge(vec![make(0), make(1), make(2)]);
    assert_eq!(plan.len(), 2);
    let all = |pick: fn(&LoadedPlugin) -> &SortedSet<String>| {
        let mut all: Vec<String> = plan
            .iter()
            .flat_map(|p| members(pick(p)))
            .map(|name| name.to_string())
            .collect();
        all.sort();
        all
    };
    assert_eq!(all(|p| &p.source_names), ["name0", "name1", "name2"]);
    assert_eq!(all(|p| &p.script.lua_start), ["start0", "start1", "start2"]);
    assert_eq!(all(|p| &p.script.lua_before), ["before0", "before1", "before2"]);
    assert_eq!(all(|p| &p.script.lua_after), ["after0", "after1", "after2"]);
}

#[test]
fn a_plugin_that_is_kept_apart_stays_as_it_is() {
    let make = |n: usize| {
        let path = format!("plugin/{n}.lua");
        let mut p = synth(vec![generated(&path, &[n as u8], MergeType::Conflict)]);
        p.merge_enabled = n != 1;
        p
    };
    let apart = make(1).plugin_id().as_str();
    let plan = LoadedPlugin::merge(vec![make(0), make(1), make(2)]);
    let kept: Vec<&LoadedPlugin> = plan
        .iter()
        .filter(|p| p.plugin_id().as_str() == apart)
        .collect();
    assert_eq!(kept.len(), 1);
    assert_eq!(paths(&kept[0].files), vec!["plugin/1.lua"]);
    assert!(!kept[0].merge_enabled);
}

#[test]
fn merged_packages_keep_the_files_of_all() {
    let dir = |name: &str, root: &str, list: &[&str]| {
        let source = snapshot(root, list);
        synth(vec![item(snap(name, b"rev"), "lua", &source)])
    };
    let a = dir("github.com/o/a", "/cache/a", &["lua/x/a.lua"]);
    let b = dir("github.com/o/b", "/cache/b", &["lua/x/b.lua", "lua/b.lua"]);
    let c = dir("github.com/o/c", "/cache/c", &["lua/x/c.lua", "lua/y/c.lua"]);
    let plan = LoadedPlugin::merge(vec![a, b, c]);
    assert_eq!(plan.len(), 1);
    assert_eq!(
        paths(&plan[0].files),
        vec!["lua/b.lua", "lua/x/a.lua", "lua/x/b.lua", "lua/x/c.lua", "lua/y"]
    );
}

#[test]
fn packages_know_where_their_snapshot_lies() {
    let p = synth(vec![repo_file(
        snap("github.com/o/a", b"rev"),
        "plugin/a.lua",
        "/cache/a",
    )]);
    assert_eq!(
        p.snapshot_root().map(|root| root.to_text()),
        Some("/cache/a".to_string())
    );
    let generated = synth(vec![generated("plugin/a.lua", b"x", MergeType::Conflict)]);
    assert!(generated.snapshot_root().is_none());
    assert!(synth(Vec::new()).snapshot_root().is_none());
}

#[test]
fn inventories_answer_after_they_are_indexed_again() {
    let entry = |path: &str, kind: ManifestKind| ManifestEntry {
        path: Path::parse(path),
        kind,
        symlink_target: None,
        followed_kind: None,
    };
    let mut manifest = SnapshotManifest::new(MANIFEST_SCHEMA, Vec::new(), None);
    manifest.entries = vec![
        entry("lua", ManifestKind::Dir),
        entry("lua/a.lua", ManifestKind::File),
    ];
    manifest.reindex();
    assert!(matches!(
        manifest.kind_of(&Path::parse("lua/a.lua")),
        Some(ManifestKind::File)
    ));
    assert_eq!(members(&manifest.child_names(&Path::parse("lua"))), vec!["a.lua"]);
    let top: Vec<String> = manifest.top_level().iter().map(|p| p.to_text()).collect();
    assert_eq!(top, vec!["lua"]);
}

#[test]
fn scanned_file_types_are_noted_where_there_are_any() {
    let texts = |list: &[&str]| -> Vec<String> { list.iter().map(|s| s.to_string()).collect() };
    let mut index = SortedMap::new();
    let (lua, vim) = ("lua".to_string(), "vim".to_string());
    let (a, b) = ("a".to_string(), "b".to_string());
    index_scanned(&mut index, &texts(&["lua.lua", "notes.txt"]), &texts(&[]), &lua, &a);
    index_scanned(&mut index, &texts(&[]), &texts(&["x.vim"]), &lua, &b);
    index_scanned(&mut index, &texts(&["lua.lua"]), &texts(&[]), &vim, &a);
    assert_eq!(index.len(), 1);
    assert_eq!(index.key_at(0), "lua");
    let by_id = index.value_at(0);
    assert_eq!(by_id.len(), 2);
    assert_eq!(by_id.value_at(0), &texts(&["opt/a/ftplugin/lua.lua"]));
    assert_eq!(by_id.value_at(1), &texts(&["opt/b/ftplugin/lua/x.vim"]));
}

const FT_ID: &str = "aaaaaaaaaaaaaaaaaaaaaaaaaaaaaaaa";

/// The index of a package with these files below `ftplugin`.
fn scanned_index(files: &[&str]) -> SortedMap<String, SortedMap<String, Vec<String>>> {
    let names: Vec<String> = files
        .iter()
        .filter(|f| !f.contains('/'))
        .map(|f| f.to_string())
        .collect();
    let inner: Vec<String> = files
        .iter()
        .filter_map(|f| f.strip_prefix("lua/"))
        .map(|f| f.to_string())
        .collect();
    let mut index = SortedMap::new();
    index_scanned(
        &mut index,
        &names,
        &inner,
        &"lua".to_string(),
        &FT_ID.to_string(),
    );
    index
}

#[test]
fn build_ft_index_collects_three_groups_sorted_and_dedup() {
    let idx = scanned_index(&[
        "lua.lua",
        "lua.vim",
        "lua_b.vim",
        "lua_a.lua",
        "lua/x.vim",
        "lua/a.lua",
        "foo.txt",
    ]);
    assert_eq!(idx.key_at(0), "lua");
    assert_eq!(idx.value_at(0).key_at(0), FT_ID);
    let expected: Vec<String> = [
        "opt/aaaaaaaaaaaaaaaaaaaaaaaaaaaaaaaa/ftplugin/lua.vim",
        "opt/aaaaaaaaaaaaaaaaaaaaaaaaaaaaaaaa/ftplugin/lua.lua",
        "opt/aaaaaaaaaaaaaaaaaaaaaaaaaaaaaaaa/ftplugin/lua_a.lua",
        "opt/aaaaaaaaaaaaaaaaaaaaaaaaaaaaaaaa/ftplugin/lua_b.vim",
        "opt/aaaaaaaaaaaaaaaaaaaaaaaaaaaaaaaa/ftplugin/lua/a.lua",
        "opt/aaaaaaaaaaaaaaaaaaaaaaaaaaaaaaaa/ftplugin/lua/x.vim",
    ]
    .iter()
    .map(|s| s.to_string())
    .collect();
    assert_eq!(idx.value_at(0).value_at(0), &expected);
}

#[test]
fn build_ft_index_skips_unrelated_extensions() {
    let idx = scanned_index(&["lua.vim", "lua_notes.md"]);
    let paths = idx.value_at(0).value_at(0);
    assert_eq!(paths.len(), 1);
    assert!(paths[0].ends_with("/ftplugin/lua.vim"));
}

#[test]
fn build_ft_index_empty_when_ftplugin_missing() {
    assert!(scanned_index(&[]).is_empty());
}

#[test]
fn manifest_driven_disjoint_directory_children_merge() {
    let (a, b) = two_dir_plugins("a.lua", "b.lua");
    let (_merged, rest) = a.add(b);
    assert!(
        rest.is_none(),
        "manifest present: disjoint directory children should still merge"
    );
}

#[test]
fn manifest_driven_merge_probes_prefer_manifest_over_filesystem() {
    let root = snapshot("/cache/a", &["lua/a.lua", "lua/sub/b.lua", "file.txt"]);
    assert!(root.is_dir(&Path::parse("lua")));
    assert!(!root.is_dir(&Path::parse("file.txt")));
    let lua = root.children(&Path::parse("lua"));
    assert!(lua.contains(&"a.lua".to_string()));
    assert!(lua.contains(&"sub".to_string()));
    let sub = root.children(&Path::parse("lua/sub"));
    assert!(sub.contains(&"b.lua".to_string()));
    assert!(!root.is_dir(&Path::parse("does-not-exist")));
}

#[test]
fn data_at_hand_merges_with_a_directory_by_the_merge_type() {
    let source = snapshot("/cache/a", &["lua/x.lua"]);
    let mut dir = item(snap("github.com/owner/a", b"aaaa"), "lua", &source);
    dir.1.merge_type = MergeType::Overwrite;
    let data = generated("lua", b"x", MergeType::Overwrite);
    let keep = generated("lua", b"x", MergeType::Conflict);
    assert!(entries_mergeable(&Path::parse("lua"), &dir.1, &data.1));
    assert!(entries_mergeable(&Path::parse("lua"), &data.1, &dir.1));
    assert!(!entries_mergeable(&Path::parse("lua"), &dir.1, &keep.1));
    assert!(!entries_mergeable(&Path::parse("lua"), &keep.1, &dir.1));
    let (_a, rest) = synth(vec![dir]).add(synth(vec![data]));
    assert!(rest.is_none(), "entries that may replace each other must merge");
    // So do two files that may replace each other.
    let one = generated("plugin/a.lua", b"x", MergeType::Overwrite);
    let other = generated("plugin/a.lua", b"y", MergeType::Overwrite);
    assert!(entries_mergeable(&Path::parse("plugin/a.lua"), &one.1, &other.1));
}

/// The index for `lua` of a package that lists these paths of one source.
fn lua_index(listed: &[&str], source: &Arc<FileSource>) -> Option<Vec<String>> {
    let id = "p".to_string();
    let packages = vec![(
        id.clone(),
        Files {
            is_lazy_registration: false,
            entries: listed.iter().map(|p| (Path::parse(p), source.clone())).collect(),
            dotgit: false,
        },
    )];
    let mut pairs = SortedMap::new();
    pairs.insert("lua".to_string(), vec![id.clone()]);
    let index = build_ft_index_from_inventories(&packages, &pairs)?;
    let found = index.get(&"lua".to_string()).and_then(|by_id| by_id.get(&id));
    Some(found.cloned().unwrap_or_default())
}

#[test]
fn ft_index_takes_what_is_directly_in_the_directory_of_the_file_type() {
    let source = snapshot(
        "/cache/ft",
        &[
            "ftplugin/lua.vim",
            "ftplugin/lua/x.vim",
            "ftplugin/lua/sub/deep.vim",
            "ftplugin/lua/notes.md",
        ],
    );
    assert_eq!(
        lua_index(&["ftplugin"], &source).unwrap(),
        ["opt/p/ftplugin/lua.vim", "opt/p/ftplugin/lua/x.vim"]
    );
}

#[test]
fn file_types_may_be_named_by_paths() {
    let source = snapshot(
        "/cache/ft",
        &[
            "ftplugin/a.vim",
            "ftplugin/a/b.vim",
            "ftplugin/a/b.lua",
            "ftplugin/a/b_x.vim",
            "ftplugin/a/b/deep.lua",
        ],
    );
    let id = "p".to_string();
    let ft = "a/b".to_string();
    let packages = vec![(
        id.clone(),
        Files {
            is_lazy_registration: false,
            entries: vec![(Path::parse("ftplugin"), source)],
            dotgit: false,
        },
    )];
    let mut pairs = SortedMap::new();
    pairs.insert(ft.clone(), vec![id.clone()]);
    let told = build_ft_index_from_inventories(&packages, &pairs).unwrap();
    let texts = |list: &[&str]| -> Vec<String> { list.iter().map(|s| s.to_string()).collect() };
    let mut found = SortedMap::new();
    index_scanned(
        &mut found,
        &texts(&["a.vim", "a/b.vim", "a/b.lua"]),
        &texts(&["deep.lua"]),
        &ft,
        &id,
    );
    let expected = texts(&[
        "opt/p/ftplugin/a/b.vim",
        "opt/p/ftplugin/a/b.lua",
        "opt/p/ftplugin/a/b/deep.lua",
    ]);
    assert_eq!(told.get(&ft).unwrap().get(&id).unwrap(), &expected);
    assert_eq!(found.get(&ft).unwrap().get(&id).unwrap(), &expected);
}

#[test]
fn packages_of_a_run_do_not_depend_on_which_plugin_is_ready_first() {
    let make = |n: usize| {
        let name = format!("plugin/{n}.lua");
        let doc = format!("doc/{n}.txt");
        let mut p = synth(vec![
            generated(&name, &[n as u8], MergeType::Conflict),
            generated(&doc, &[n as u8], MergeType::Conflict),
        ]);
        p.order = n;
        p.lazy_type = if n < 2 { LazyType::Start } else { opt(&["InsertEnter"]) };
        p
    };
    let planned = |order: [usize; 4]| {
        let mut plan = PackPlan::new();
        plan.load(order.into_iter().map(make).collect());
        let ids: Vec<String> = plan.files.iter().map(|(id, _)| id.clone()).collect();
        (ids, plan.doc_plugins.len())
    };
    let (ids, docs) = planned([0, 1, 2, 3]);
    assert_eq!((ids.len(), docs), (2, 4));
    for order in [[3, 2, 1, 0], [1, 3, 0, 2], [2, 0, 3, 1]] {
        assert_eq!(planned(order), (ids.clone(), docs));
    }
}

#[test]
fn ft_index_names_a_path_once() {
    let source = snapshot("/cache/ft", &["ftplugin/lua.vim", "ftplugin/lua/x.vim"]);
    assert_eq!(
        lua_index(&["ftplugin", "ftplugin/lua.vim", "ftplugin/lua"], &source).unwrap(),
        ["opt/p/ftplugin/lua.vim", "opt/p/ftplugin/lua/x.vim"]
    );
}

#[test]
fn ft_index_follows_links_to_files_and_is_not_told_of_others() {
    let with_link = |followed: Option<ManifestKind>| {
        let entry = |path: &str, kind: ManifestKind| ManifestEntry {
            path: Path::parse(path),
            kind,
            symlink_target: None,
            followed_kind: None,
        };
        let mut link = entry("ftplugin/lua.vim", ManifestKind::Symlink);
        link.symlink_target = Some(Path::parse("real.vim"));
        link.followed_kind = followed;
        Arc::new(FileSource::Directory {
            root: Path::parse("/cache/ft"),
            inventory: SnapshotManifest::new(
                MANIFEST_SCHEMA,
                vec![
                    entry("ftplugin", ManifestKind::Dir),
                    link,
                    entry("ftplugin/real.vim", ManifestKind::File),
                ],
                None,
            ),
        })
    };
    assert_eq!(
        lua_index(&["ftplugin"], &with_link(Some(ManifestKind::File))).unwrap(),
        ["opt/p/ftplugin/lua.vim"]
    );
    assert!(lua_index(&["ftplugin"], &with_link(Some(ManifestKind::Dir))).is_none());
    assert!(lua_index(&["ftplugin"], &with_link(None)).is_none());
}

#[test]
fn inventories_tell_what_a_scan_finds() {
    let tree = [
        "ftplugin/lua.lua",
        "ftplugin/lua_b.vim",
        "ftplugin/lua_a.lua",
        "ftplugin/vim.vim",
        "ftplugin/lua/lua_x.lua",
        "ftplugin/lua/a.vim",
        "ftplugin/lua/deep/b.vim",
    ];
    let source = snapshot("/cache/ft", &tree);
    let list = |names: &[&str]| names.iter().map(|s| s.to_string()).collect::<Vec<_>>();
    let scanned = collect_ftplugin_files(
        &list(&["lua.lua", "lua_b.vim", "lua_a.lua", "vim.vim"]),
        &list(&["lua_x.lua", "a.vim"]),
        "lua",
        "p",
    );
    assert_eq!(lua_index(&["ftplugin"], &source), Some(scanned));
}
