use rsplug::config::{
    repo_basename, CacheConfig, Config, LazyTypeDeserializer, MergeConfig, PluginConfig,
    RepoSource, SetupScript, SetupScriptOne,
};
use rsplug::resolve::resolve;
use rsplug::lazy_type::{KeyPattern, LazyType, LoadEvent, ModeChar};

fn no_triggers() -> LazyTypeDeserializer {
    LazyTypeDeserializer {
        start: false,
        on_event: Vec::new(),
        on_cmd: Vec::new(),
        on_ft: Vec::new(),
        on_func: Vec::new(),
        on_source: Vec::new(),
        on_map: KeyPattern::empty(),
    }
}

fn scripts(start: &str) -> SetupScript {
    SetupScript::from(SetupScriptOne {
        lua_start: Some(start.to_string()),
        lua_after: None,
        lua_before: None,
    })
}

fn plugin(repo: Option<RepoSource>) -> PluginConfig {
    PluginConfig {
        id: None,
        cache: CacheConfig {
            repo,
            dotgit: false,
            build: Vec::new(),
            lua_build: None,
            lua_post_update: None,
        },
        lazy_type: LazyType::try_from(no_triggers()).unwrap(),
        depends: Vec::new(),
        custom_name: None,
        script: SetupScript::default(),
        merge: MergeConfig {
            ignore: None,
            merge: true,
        },
    }
}

fn github() -> Option<RepoSource> {
    Some(RepoSource::GitHub {
        owner: "owner".to_string(),
        repo: "plugin".to_string(),
        rev: None,
    })
}

fn gitlab() -> Option<RepoSource> {
    Some(RepoSource::Git {
        url: "https://gitlab.com/owner/plugin.nvim.git".to_string(),
        rev: None,
    })
}

fn events(lazy_type: &LazyType) -> Vec<&LoadEvent> {
    match lazy_type {
        LazyType::Opt(events) => (0..events.len()).map(|i| events.at(i)).collect(),
        LazyType::Start => panic!("expected opt"),
    }
}

#[test]
fn plugin_config_deserializes_lua_start() {
    let mut p = plugin(github());
    p.script = SetupScript::from(SetupScriptOne {
        lua_start: Some("vim.g.rsplug_lua_start = true".to_string()),
        lua_before: Some("vim.g.rsplug_before = true".to_string()),
        lua_after: Some("vim.g.rsplug_after = true".to_string()),
    });
    let script = &p.script;
    assert!(script
        .lua_start
        .contains(&"vim.g.rsplug_lua_start = true".to_string()));
    assert!(script
        .lua_before
        .contains(&"vim.g.rsplug_before = true".to_string()));
    assert!(script
        .lua_after
        .contains(&"vim.g.rsplug_after = true".to_string()));
}

#[test]
fn plugin_config_deserializes_lua_post_update() {
    let table: toml::Table = toml::from_str(
        r#"
        [[plugins]]
        repo = "owner/plugin"
        lua_post_update = "vim.g.updated = true"
        "#,
    )
    .unwrap();
    let entry = &table["plugins"][0];
    let mut p = plugin(RepoSource::parse(entry["repo"].as_str().unwrap()));
    p.cache.lua_post_update = entry["lua_post_update"].as_str().map(str::to_string);
    let config = Config::sum(vec![Config { plugins: vec![p] }]);

    assert_eq!(
        config.plugins[0].cache.lua_post_update.as_deref(),
        Some("vim.g.updated = true")
    );
    assert!(matches!(
        &config.plugins[0].cache.repo,
        Some(RepoSource::GitHub { owner, repo, rev: None })
            if owner == "owner" && repo == "plugin"
    ));
}

#[test]
fn plugin_config_deserializes_on_func() {
    let lazy_type = LazyType::try_from(LazyTypeDeserializer {
        on_func: vec!["MyFunc".to_string(), "autoload#Func".to_string()],
        ..no_triggers()
    })
    .unwrap();
    assert!(events(&lazy_type)
        .iter()
        .any(|event| matches!(event, LoadEvent::VimFunc(_))));
    // The two functions, and the keys, of which there are none.
    assert_eq!(events(&lazy_type).len(), 3);
}

#[test]
fn plugin_config_allows_script_only_entry_without_repo() {
    let mut p = plugin(None);
    p.script = scripts("vim.g.rsplug_script_only = true");
    assert!(p.cache.repo.is_none());
    assert_eq!(p.dep_name(), None);
    assert!(p
        .script
        .lua_start
        .contains(&"vim.g.rsplug_script_only = true".to_string()));
}

#[test]
fn plugin_config_deserializes_on_source() {
    let lazy_type = LazyType::try_from(LazyTypeDeserializer {
        on_source: vec!["host.nvim".to_string()],
        ..no_triggers()
    })
    .unwrap();
    assert!(events(&lazy_type)
        .iter()
        .any(|event| matches!(event, LoadEvent::OnSource(source) if source == "host.nvim")));
}

#[test]
fn repo_basename_extracts_clone_directory_name() {
    assert_eq!(
        repo_basename("https://gitlab.com/foo/bar.nvim.git"),
        "bar.nvim"
    );
    assert_eq!(repo_basename("https://gitlab.com/foo/bar.nvim"), "bar.nvim");
    assert_eq!(
        repo_basename("https://gitlab.com/foo/bar.nvim/"),
        "bar.nvim"
    );
    assert_eq!(
        repo_basename("https://gitlab.com/foo/bar.nvim.git/"),
        "bar.nvim"
    );
    assert_eq!(repo_basename("git@gitlab.com:foo/bar.nvim.git"), "bar.nvim");
    assert_eq!(repo_basename("https://gitlab.com"), "gitlab.com");
}

#[test]
fn dep_name_uses_repo_basename_for_git_url() {
    assert_eq!(plugin(gitlab()).dep_name(), Some("plugin.nvim".to_string()));
    assert_eq!(plugin(github()).dep_name(), Some("plugin".to_string()));
}

#[test]
fn dep_name_custom_name_overrides_repo_basename() {
    let mut p = plugin(gitlab());
    p.custom_name = Some("my-plugin".to_string());
    assert_eq!(p.dep_name(), Some("my-plugin".to_string()));
}

#[test]
fn anonymous_script_only_derives_internal_id_from_content_hash() {
    let mut plug = plugin(None);
    plug.script = scripts("vim.g.x = true");
    assert_eq!(plug.dep_name(), None);
    let id = plug.compute_internal_id();
    assert!(
        id.chars().all(|c| c.is_ascii_hexdigit()),
        "content-hash id must be hex: {id}"
    );
    assert_eq!(id, plug.compute_internal_id());
    let mut other = plugin(None);
    other.script = scripts("vim.g.y = true");
    assert_ne!(id, other.compute_internal_id());
}

#[test]
fn start_with_lazy_trigger_is_rejected() {
    let err = LazyType::try_from(LazyTypeDeserializer {
        start: true,
        on_event: vec!["VimEnter".to_string()],
        ..no_triggers()
    });
    assert!(err.is_err(), "start + lazy trigger must be rejected");
    let ok = LazyType::try_from(LazyTypeDeserializer {
        start: true,
        ..no_triggers()
    });
    assert!(matches!(ok, Ok(LazyType::Start)));
}

#[test]
fn triggers_survive_a_round_trip() {
    let given = LazyTypeDeserializer {
        on_event: vec!["VimEnter".to_string()],
        on_cmd: vec!["Cmd".to_string()],
        on_ft: vec!["lua".to_string(), "rust".to_string()],
        on_map: KeyPattern::all_modes(&vec!["<C-x>".to_string()]),
        ..no_triggers()
    };
    let back = LazyTypeDeserializer::from(&LazyType::try_from(given).unwrap());
    assert!(!back.start);
    assert_eq!(back.on_event, vec!["VimEnter"]);
    assert_eq!(back.on_cmd, vec!["Cmd"]);
    assert_eq!(back.on_ft, vec!["lua", "rust"]);
    assert_eq!(back.on_map.0.get(&ModeChar(None)).unwrap(), &vec!["<C-x>"]);
}

#[test]
fn key_patterns_are_given_for_modes() {
    let p = KeyPattern::by_mode(&vec![
        ("nx".to_string(), vec!["a".to_string()]),
        ("n".to_string(), vec!["b".to_string()]),
    ]);
    assert_eq!(p.0.get(&ModeChar(Some('n'))).unwrap(), &vec!["a", "b"]);
    assert_eq!(p.0.get(&ModeChar(Some('x'))).unwrap(), &vec!["a"]);
    assert!(p.0.get(&ModeChar(None)).is_none());
    assert_eq!(ModeChar(Some('n')).to_text(), "n");
    assert_eq!(ModeChar(None).to_text(), "");
}

#[test]
fn configs_are_put_one_after_another() {
    let sum = Config::sum(vec![
        Config {
            plugins: vec![plugin(github())],
        },
        Config {
            plugins: vec![plugin(gitlab()), plugin(None)],
        },
    ]);
    assert_eq!(
        sum.plugins.iter().map(|p| p.dep_name()).collect::<Vec<_>>(),
        vec![
            Some("plugin".to_string()),
            Some("plugin.nvim".to_string()),
            None
        ]
    );
}

#[test]
fn scripts_are_united() {
    let mut a = scripts("x");
    a.add_assign(scripts("y"));
    a.add_assign(scripts("x"));
    assert_eq!(a.lua_start.len(), 2);
    assert_eq!((a.lua_start.at(0).as_str(), a.lua_start.at(1).as_str()), ("x", "y"));
}

fn needing(name: &str, depends: &[&str], on_event: &[&str]) -> PluginConfig {
    let mut p = plugin(None);
    p.custom_name = Some(name.to_string());
    p.depends = depends.iter().map(|s| s.to_string()).collect();
    let mut triggers = no_triggers();
    triggers.on_event = on_event.iter().map(|s| s.to_string()).collect();
    p.lazy_type = LazyType::try_from(triggers).unwrap();
    p
}

#[test]
fn dependencies_come_first_and_load_together_with_what_needs_them() {
    let config = Config {
        plugins: vec![
            needing("top", &["middle"], &["InsertEnter"]),
            needing("base", &[], &["BufRead"]),
            needing("middle", &["base"], &["CmdlineEnter"]),
        ],
    };
    let list = resolve(config).ok().unwrap();
    let names: Vec<Option<String>> = list.iter().map(|r| r.config.id.clone()).collect();
    assert_eq!(
        names,
        ["base", "middle", "top"].map(|name| Some(name.to_string()))
    );
    let texts = |lazy: &LazyType| -> Vec<String> {
        events(lazy)
            .into_iter()
            .filter_map(|e| match e {
                LoadEvent::Autocmd(name) => Some(name.clone()),
                _ => None,
            })
            .collect()
    };
    assert_eq!(texts(&list[0].lazy_type), ["BufRead", "CmdlineEnter", "InsertEnter"]);
    assert_eq!(texts(&list[1].lazy_type), ["CmdlineEnter", "InsertEnter"]);
    assert_eq!(texts(&list[2].lazy_type), ["InsertEnter"]);
}

#[test]
fn what_a_startup_plugin_needs_is_loaded_at_startup() {
    let mut top = needing("top", &["base"], &[]);
    top.lazy_type = LazyType::Start;
    let config = Config {
        plugins: vec![top, needing("base", &[], &["BufRead"])],
    };
    let list = resolve(config).ok().unwrap();
    assert!(matches!(list[0].lazy_type, LazyType::Start));
    assert_eq!(list[0].config.id.as_deref(), Some("base"));
}

#[test]
fn configurations_that_cannot_be_resolved_are_refused() {
    let message = |plugins: Vec<PluginConfig>| match resolve(Config { plugins }) {
        Ok(_) => panic!("resolved"),
        Err(e) => e.message(),
    };
    assert_eq!(
        message(vec![needing("a", &[], &[]), needing("a", &[], &[])]),
        "duplicate node: a"
    );
    assert_eq!(
        message(vec![needing("a", &["b"], &[])]),
        "unknown dependency: b (referred by a)"
    );
    assert_eq!(
        message(vec![needing("a", &["b"], &[]), needing("b", &["a"], &[])]),
        "cycle detected; remaining: [\"a\", \"b\"]"
    );
}

#[test]
fn plugins_ask_for_their_repositories() {
    assert!(plugin(None).request().is_none());
    let at = |text: &str| plugin(RepoSource::parse(text)).request().unwrap();
    let short = at("owner/plugin@v1");
    assert_eq!(short.canonical, "github.com/owner/plugin");
    assert_eq!(short.rev.as_deref(), Some("v1"));
    assert_eq!(short.github, Some(("owner".to_string(), "plugin".to_string())));
    let other = at("https://me@Host.org:8443/o/r.git");
    assert_eq!(other.canonical, "host.org:8443/o/r");
    assert_eq!((other.rev, other.github), (None, None));
}

#[test]
fn plugins_of_one_name_are_refused() {
    let config = Config {
        plugins: vec![needing("a", &[], &[]), needing("b", &["a"], &[]), needing("a", &[], &[])],
    };
    let refused = rsplug::resolve::resolve(config).err().unwrap();
    assert!(refused.message().contains('a'));
}
