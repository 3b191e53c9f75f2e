use rsplug::config::SetupScript;
use rsplug::files::{FileItem, FileSource, MergeType};
use rsplug::generation::{render_init, GenerationPlan, RuntimeManifest, GENERATION_VERSION};
use rsplug::identity::{FileIdentity, RepoFileIdentity, RepoSnapshotIdentity};
use rsplug::install::InstallStep;
use rsplug::lazy_type::{LazyType, LoadEvent};
use rsplug::loaded::LoadedPlugin;
use rsplug::manifest::{ManifestEntry, ManifestKind, SnapshotManifest, MANIFEST_SCHEMA};
use rsplug::order::{SortedMap, SortedSet};
use rsplug::pack_plan::PackPlan;
use rsplug::path::Path;
use std::sync::Arc;

/// A plugin with one file below `ftplugin`, which is loaded for a file type.
fn plugin(ft: &str, kind: ManifestKind) -> LoadedPlugin {
    let entries = [("ftplugin", ManifestKind::Dir), ("ftplugin/rust.vim", kind)]
        .into_iter()
        .map(|(path, kind)| ManifestEntry {
            path: Path::parse(path),
            kind,
            symlink_target: None,
            followed_kind: None,
        })
        .collect();
    let source = Arc::new(FileSource::Directory {
        root: Path::parse("/cache/p"),
        inventory: SnapshotManifest::new(MANIFEST_SCHEMA, entries, None),
    });
    let snapshot = RepoSnapshotIdentity::new(
        Path::parse("github.com/o/p"),
        b"abc".to_vec(),
        None,
        Vec::new(),
        None,
    );
    let mut files = SortedMap::new();
    let which = Path::parse("ftplugin");
    files.insert(
        which.duplicated(),
        FileItem::new(
            source,
            FileIdentity::RepoFile(RepoFileIdentity::new(snapshot, which)),
            MergeType::Conflict,
        ),
    );
    let mut events = SortedSet::new();
    events.insert(LoadEvent::FileType(ft.to_string()));
    LoadedPlugin {
        source_names: SortedSet::new(),
        lazy_type: LazyType::Opt(events),
        files,
        script: SetupScript::default(),
        order: 0,
        merge_enabled: true,
        is_lazy_registration: false,
        dotgit: false,
    }
}

fn planned(kind: ManifestKind) -> (PackPlan, String) {
    let mut plan = PackPlan::new();
    plan.load(vec![plugin("rust", kind)]);
    let id = plan.files[0].0.clone();
    (plan, id)
}

fn listed(runtime: &RuntimeManifest) -> Vec<(String, String, Vec<String>)> {
    let mut list = Vec::new();
    for i in 0..runtime.ftplugin.len() {
        let by_id = runtime.ftplugin.value_at(i);
        for j in 0..by_id.len() {
            list.push((
                runtime.ftplugin.key_at(i).clone(),
                by_id.key_at(j).clone(),
                by_id.value_at(j).clone(),
            ));
        }
    }
    list
}

#[test]
fn an_installation_knows_its_generation_before_it_begins() {
    let (mut plan, id) = planned(ManifestKind::File);
    let prepared = plan.prepare(b"help".to_vec());
    assert!(!prepared.control_ids.is_empty());
    assert!(!prepared.control_ids.contains(&id));
    assert_eq!(prepared.entries.len(), plan.files.len());
    assert!(prepared.entries.contains(&format!("opt/{id}")));
    assert!(prepared.entries.windows(2).all(|pair| pair[0] <= pair[1]));
    assert_eq!(prepared.init, render_init(&prepared.control_ids).into_bytes());
    assert_eq!(prepared.ft_pairs.get(&"rust".to_string()), Some(&vec![id.clone()]));
    let desired = prepared.desired.as_ref().unwrap();
    let paths = vec![format!("opt/{id}/ftplugin/rust.vim")];
    assert_eq!(
        listed(&desired.runtime),
        [("rust".to_string(), id.clone(), paths)]
    );
    assert_eq!(prepared.expected_name(), desired.id());
    assert_eq!(prepared.begin().step, InstallStep::CheckCurrent);

    // What was found does not matter where inventories tell.
    let recorded = prepared.record(Some(RuntimeManifest {
        ftplugin: SortedMap::new(),
    }));
    assert_eq!(recorded.name, prepared.expected_name());
    assert_eq!(recorded.manifest.version, GENERATION_VERSION);
    assert_eq!(recorded.manifest.entries, prepared.entries);
    assert_eq!(recorded.manifest.generation_id, desired.id());
    assert!(recorded.manifest.plan.as_ref().unwrap().same(desired));
    assert_eq!(listed(&recorded.manifest.runtime), listed(&desired.runtime));
}

#[test]
fn a_generation_is_recorded_with_what_was_found_where_inventories_do_not_tell() {
    let (mut plan, id) = planned(ManifestKind::Symlink);
    let prepared = plan.prepare(Vec::new());
    assert!(prepared.desired.is_none());
    assert_eq!(prepared.begin().step, InstallStep::CleanStaging);
    assert_eq!(prepared.expected_name(), prepared.control_ids[0]);
    let mut by_id = SortedMap::new();
    by_id.insert(id.clone(), vec![format!("opt/{id}/ftplugin/rust.vim")]);
    let mut ftplugin = SortedMap::new();
    ftplugin.insert("rust".to_string(), by_id);
    let found = RuntimeManifest { ftplugin };
    let copy = found.duplicated();
    assert_eq!(listed(&copy), listed(&found));
    let recorded = prepared.record(Some(found));
    assert_eq!(recorded.name, prepared.control_ids[0]);
    assert_eq!(listed(&recorded.manifest.runtime), listed(&copy));
    let expected = GenerationPlan::new(
        prepared.entries.clone(),
        prepared.control_ids.clone(),
        copy,
    );
    assert_eq!(recorded.manifest.generation_id, expected.id());
    assert!(recorded.manifest.plan.unwrap().same(&expected));
    assert!(listed(&prepared.record(None).manifest.runtime).is_empty());
}

#[test]
fn an_installation_of_nothing_has_no_generated_packages() {
    let mut plan = PackPlan::new();
    let prepared = plan.prepare(b"help".to_vec());
    assert!(prepared.control_ids.is_empty() && prepared.entries.is_empty());
    assert_eq!(prepared.init, render_init(&Vec::new()).into_bytes());
    let recorded = prepared.record(None);
    assert_eq!(recorded.name, prepared.desired.unwrap().id());
}
