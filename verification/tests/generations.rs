use rsplug::generation::{
    file_generation, generation_is_current, generation_name_ok, manifest_entries, package_kept,
    package_reachable, publication_name, registry_from_files, render_init, update_registry,
    GenerationManifest, GenerationPlan, Observed, Retention, RuntimeManifest,
};
use rsplug::install::{
    copy_budget, helptags_command, package_action, reflink_should_fallback, reflink_unsupported,
    staging_name, staging_removable, CopyAction, CopyEvent, CopyStrategy, ErrorNumbers,
    InstallEvent, InstallStep, Installation, PackageAction, Platform, TreeAction,
};
use rsplug::loaded::PluginId;
use rsplug::order::{SortedMap, SortedSet};
use rsplug::pack_plan::Files;
use rsplug::path::Path;

fn plugin_id(data: &[u8]) -> String {
    PluginId {
        digest: xxhash_rust::xxh3::xxh3_128(data),
    }
    .as_str()
}

fn strings(list: &[&str]) -> Vec<String> {
    list.iter().map(|s| s.to_string()).collect()
}

fn no_runtime() -> RuntimeManifest {
    RuntimeManifest {
        ftplugin: SortedMap::new(),
    }
}

fn runtime(id: &str) -> RuntimeManifest {
    let mut inner = SortedMap::new();
    inner.insert(id.to_string(), vec![format!("opt/{id}/ftplugin/lua.vim")]);
    let mut ftplugin = SortedMap::new();
    ftplugin.insert("lua".to_string(), inner);
    RuntimeManifest { ftplugin }
}

fn manifest(entries: &[&str]) -> GenerationManifest {
    GenerationManifest {
        version: 2,
        entries: strings(entries),
        generation_id: String::new(),
        plan: None,
        runtime: no_runtime(),
    }
}

#[test]
fn init_template_packadds_control_packages() {
    let control_id = plugin_id(b"control-package");
    let script = render_init(&vec![control_id.clone()]);
    assert!(
        script.contains(&format!("\"{control_id}\"")),
        "control id must appear in the ids table: {script:?}"
    );
    assert!(script.contains("vim.cmd.packadd(id)"));
    assert!(!script.contains("packloadall"));
}

#[test]
fn init_template_emits_exact_packadd_block() {
    let a = plugin_id(b"aaaa");
    let b = plugin_id(b"bbbb");
    let script = render_init(&vec![a.clone(), b.clone()]);
    let actual = script
        .split("vim.opt.packpath:prepend(root)\n\n")
        .nth(1)
        .unwrap();
    let expected = format!(
        "local requested = vim.env.RSPLUG_GENERATION\nlocal ids = {{ \"{a}\",\"{b}\", }}\n"
    );
    assert!(
        actual.starts_with(&expected),
        "unexpected init template output: {actual:?}\nexpected prefix: {expected:?}"
    );
}

#[test]
fn init_template_resolves_symlink_and_goes_up_two_levels() {
    let script = render_init(&vec![plugin_id(b"gen")]);
    assert!(
        script.contains("vim.fn.resolve"),
        "must resolve the init.lua symlink"
    );
    assert!(
        script.contains(":h:h"),
        "must go up two levels from generations/<id>.lua"
    );
}

#[test]
fn init_template_empty_control_ids_is_safe_without_rsplug_runtime() {
    let script = render_init(&Vec::new());
    assert!(
        !script.contains("require, '_rsplug'"),
        "empty control_ids must not require _rsplug: {script:?}"
    );
    assert!(
        !script.contains("rsplug.startup()"),
        "empty control_ids must not call startup: {script:?}"
    );
    assert!(
        !script.contains("RSPLUG_GENERATION"),
        "empty control_ids must not emit the generation override block: {script:?}"
    );
}

#[test]
fn init_template_supports_rsplug_generation_override() {
    let script = render_init(&vec![plugin_id(b"gen")]);
    assert!(script.contains("vim.env.RSPLUG_GENERATION"));
    assert!(script.contains("^[0-9a-fA-F]+$"));
    assert!(script.contains("#requested == 32"));
    assert!(script.contains("vim.fn.filereadable"));
    assert!(script.contains("vim.notify"));
    assert!(script.contains("vim.log.levels.WARN"));
}

#[test]
fn manifest_entries_are_parsed_from_json_model() {
    let parsed = manifest_entries(&GenerationManifest {
        version: 1,
        ..manifest(&[
            "opt/22222222222222222222222222222222",
            "opt/11111111111111111111111111111111",
        ])
    });
    assert!(parsed.contains(&"opt/22222222222222222222222222222222".to_string()));
    assert!(parsed.contains(&"opt/11111111111111111111111111111111".to_string()));
}

#[test]
fn generation_plan_id_is_deterministic_and_runtime_sensitive() {
    let id = plugin_id(b"generation-control");
    let make = |runtime| {
        GenerationPlan::new(vec![format!("opt/{id}")], vec![id.clone()], runtime)
    };
    let first = make(runtime(&id));
    let second = make(runtime(&id));
    assert!(first.same(&second));
    assert_eq!(first.id(), second.id());
    let changed = make(no_runtime());
    assert!(!first.same(&changed));
    assert_ne!(first.id(), changed.id());
    assert!(generation_name_ok(&first.id()));
}

#[test]
fn names_of_generations_are_digests() {
    assert!(generation_name_ok("0123456789abcdefABCDEF0123456789"));
    assert!(!generation_name_ok("0123456789abcdef"));
    assert!(!generation_name_ok("../3456789abcdefABCDEF0123456789"));
}

#[test]
fn registries_begin_with_the_current_generation() {
    assert_eq!(
        update_registry(&strings(&["b", "a", "c"]), "a"),
        strings(&["a", "b", "c"])
    );
    assert_eq!(update_registry(&Vec::new(), "x"), strings(&["x"]));
    assert_eq!(
        registry_from_files(&strings(&["b.json", "a.json", "x.lua", "registry.txt"])),
        strings(&["a", "b"])
    );
    assert_eq!(file_generation("a.lua", "lua"), Some("a".to_string()));
    assert_eq!(file_generation("a.json", "lua"), None);
}

#[test]
fn published_generations_have_names() {
    let plan = GenerationPlan::new(strings(&["opt/a"]), strings(&["c"]), no_runtime());
    let id = plan.id();
    assert_eq!(publication_name(&Some(plan), &strings(&["c"]), "p"), id);
    assert_eq!(publication_name(&None, &strings(&["c"]), "p"), "c");
    assert_eq!(publication_name(&None, &Vec::new(), "p"), "p");
}

#[test]
fn a_published_generation_is_current() {
    let entries = strings(&["opt/a"]);
    let controls = strings(&["c"]);
    let plan = || GenerationPlan::new(entries.clone(), controls.clone(), no_runtime());
    let init = render_init(&controls).into_bytes();
    let observed = |init: Vec<u8>| Observed {
        packages_present: true,
        init: Some(init.clone()),
        init_is_link: Some(true),
        manifest: Some(GenerationManifest {
            version: 2,
            entries: entries.clone(),
            generation_id: plan().id(),
            plan: Some(plan()),
            runtime: no_runtime(),
        }),
        loader: Some(init),
    };
    let current = |o: &Observed| {
        generation_is_current(o, &controls, &entries, &init, &Some(plan()))
    };
    assert!(current(&observed(init.clone())));
    assert!(!current(&observed(b"other".to_vec())));
    let mut missing = observed(init.clone());
    missing.packages_present = false;
    assert!(!current(&missing));
    let mut old = observed(init.clone());
    old.manifest.as_mut().unwrap().version = 1;
    assert!(!current(&old));
    let mut copied = observed(init.clone());
    copied.init_is_link = Some(false);
    assert!(!current(&copied));
}

#[test]
fn three_generations_are_retained() {
    let name = |n: usize| format!("{n:032x}");
    let mut r = Retention::new(
        &manifest(&["opt/a"]),
        &name(1),
        vec![name(1), "other".to_string(), name(2), name(3), name(4)],
    );
    assert_eq!(r.next_generation(), Some(name(2)));
    r.retain(&manifest(&["opt/b"]));
    assert_eq!(r.next_generation(), Some(name(3)));
    r.retain(&manifest(&["opt/c"]));
    assert_eq!(r.next_generation(), None);
    let kept: Vec<&String> = (0..r.entries.len()).map(|i| r.entries.at(i)).collect();
    assert_eq!(kept, ["opt/a", "opt/b", "opt/c"]);
}

#[test]
fn packages_of_retained_generations_are_kept() {
    let mut entries: SortedSet<String> = SortedSet::new();
    entries.insert("opt/a".to_string());
    entries.insert("opt/b/sub".to_string());
    assert!(package_reachable(&entries, "opt", "a") && package_kept(&entries, "opt", "a"));
    assert!(package_reachable(&entries, "opt", "b") && !package_kept(&entries, "opt", "b"));
    assert!(!package_reachable(&entries, "opt", "c"));
    assert!(!package_reachable(&entries, "opt", "su"));
}

#[test]
fn an_installation_swaps_the_pointer_last() {
    let mut s = Installation::new(false, true, true, true);
    let mut steps = Vec::new();
    while s.step != InstallStep::Finished {
        steps.push(s.step);
        s.advance(match s.step {
            InstallStep::CheckCurrent | InstallStep::CheckAgain => InstallEvent::No,
            _ => InstallEvent::Done,
        });
    }
    let at = |step: InstallStep| steps.iter().position(|s| *s == step).unwrap();
    assert!(at(InstallStep::PublishPackages) < at(InstallStep::SwapLink));
    assert!(at(InstallStep::WriteManifest) < at(InstallStep::SwapLink));
    assert!(at(InstallStep::Lock) < at(InstallStep::PublishPackages));
    assert!(s.pointer_swapped && !s.locked);
}

#[test]
fn a_failed_installation_leaves_the_pointer() {
    let mut s = Installation::new(false, true, true, true);
    s.advance(InstallEvent::No);
    while s.step != InstallStep::PublishPackages {
        s.advance(InstallEvent::No);
    }
    s.advance(InstallEvent::Error);
    assert_eq!(s.step, InstallStep::Failed);
    assert!(!s.pointer_swapped && !s.locked);

    let mut current = Installation::new(false, true, true, true);
    assert_eq!(current.step, InstallStep::CheckCurrent);
    current.advance(InstallEvent::Yes);
    assert_eq!(current.step, InstallStep::Finished);
    assert!(!current.packages_published);
}

#[test]
fn packages_are_copied_unless_they_are_there() {
    let package = |dotgit: bool, entries: &[&str]| Files {
        is_lazy_registration: false,
        entries: entries
            .iter()
            .map(|p| {
                (
                    Path::parse(p),
                    std::sync::Arc::new(rsplug::files::FileSource::File { data: Vec::new() }),
                )
            })
            .collect(),
        dotgit,
    };
    assert_eq!(
        package_action(&package(false, &["a"]), true),
        PackageAction::Skip
    );
    assert_eq!(
        package_action(&package(false, &["a"]), false),
        PackageAction::Copy
    );
    assert_eq!(
        package_action(&package(true, &["a"]), false),
        PackageAction::DotgitMissing
    );
    assert_eq!(
        package_action(&package(true, &["a", ".git"]), false),
        PackageAction::Copy
    );
    assert_eq!((copy_budget(0), copy_budget(3), copy_budget(99)), (2, 6, 16));
}

const LINUX: ErrorNumbers = ErrorNumbers {
    enotty: 25,
    enosys: 38,
    eopnotsupp: 95,
    enotsup: 95,
    exdev: 18,
};

const MAC_OS: ErrorNumbers = ErrorNumbers {
    enotty: 25,
    enosys: 78,
    eopnotsupp: 102,
    enotsup: 45,
    exdev: 18,
};

#[test]
fn copying_falls_back_once() {
    let mut strategy = CopyStrategy::initial(Platform::Linux);
    let mut after = |event| strategy.advance_strategy(Platform::Linux, &LINUX, event);
    assert_eq!(after(CopyEvent::AlreadyExists), CopyAction::Overwrite);
    assert_eq!(after(CopyEvent::Error(Some(13))), CopyAction::Fail);
    assert_eq!(after(CopyEvent::Error(None)), CopyAction::Fail);
    assert_eq!(after(CopyEvent::Error(Some(18))), CopyAction::Retry);
    assert_eq!(after(CopyEvent::Error(Some(18))), CopyAction::Fail);
    assert_eq!(after(CopyEvent::Done), CopyAction::Finish);
    assert_eq!(strategy, CopyStrategy::Copy);
    let mut linked = CopyStrategy::Hardlink;
    let action = linked.advance_strategy(Platform::Linux, &LINUX, CopyEvent::Error(Some(95)));
    assert_eq!((linked, action), (CopyStrategy::Hardlink, CopyAction::Fail));
}

#[test]
fn what_cannot_be_shared_depends_on_the_system() {
    for (platform, numbers, unsupported, other) in [
        (Platform::Linux, LINUX, [25, 38, 95], [45, 78, 102, 13]),
        (Platform::MacOs, MAC_OS, [45, 78, 102], [25, 38, 95, 13]),
    ] {
        for code in unsupported {
            assert!(reflink_unsupported(platform, &numbers, Some(code)));
            assert!(reflink_should_fallback(platform, &numbers, Some(code)));
        }
        for code in other {
            assert!(!reflink_unsupported(platform, &numbers, Some(code)));
            assert!(!reflink_should_fallback(platform, &numbers, Some(code)));
        }
        assert!(!reflink_unsupported(platform, &numbers, Some(18)));
        assert!(reflink_should_fallback(platform, &numbers, Some(18)));
        assert!(!reflink_should_fallback(platform, &numbers, None));
    }
    assert!(reflink_unsupported(Platform::Other, &LINUX, None));
    assert_eq!(CopyStrategy::initial(Platform::MacOs), CopyStrategy::Reflink);
    assert_eq!(CopyStrategy::initial(Platform::Other), CopyStrategy::Copy);
}

#[test]
fn a_directory_is_shared_as_a_whole_where_that_can_be_done() {
    let mut strategy = CopyStrategy::Reflink;
    assert!(strategy.tries_trees(Platform::MacOs));
    assert!(!strategy.tries_trees(Platform::Linux));
    assert!(!CopyStrategy::Copy.tries_trees(Platform::MacOs));
    let mut after = |event| strategy.advance_tree(Platform::MacOs, &MAC_OS, event);
    assert_eq!(after(CopyEvent::Done), TreeAction::Finish);
    assert_eq!(after(CopyEvent::AlreadyExists), TreeAction::Walk);
    assert_eq!(after(CopyEvent::Error(Some(13))), TreeAction::Fail);
    assert_eq!(after(CopyEvent::Error(Some(45))), TreeAction::Walk);
    assert_eq!(strategy, CopyStrategy::Copy);
}

#[test]
fn private_directories_are_recognised() {
    let name = staging_name("abc", 12, 3);
    assert_eq!(name, ".staging-abc-12-3");
    assert!(staging_removable(&name, Some(false), false));
    assert!(!staging_removable(&name, Some(true), true));
    assert!(staging_removable(&name, None, true));
    assert!(!staging_removable(&name, None, false));
    assert!(!staging_removable("opt", Some(false), true));
}

#[test]
fn help_commands_are_escaped() {
    assert_eq!(helptags_command("/a b|c\\d"), "helptags /a\\ b\\|c\\\\d");
}
