use rsplug::config::{SetupScript, SetupScriptOne};
use rsplug::files::FileSource;
use rsplug::lazy_registration::control::{
    hook_module_id, hook_modules, instant_startup_pkg, render_lua_start, ControlTexts, Rendered,
};
use rsplug::lazy_registration::inputs::build_source2pkgid;
use rsplug::lazy_registration::templates::{
    render_ftplugin, render_hooks, render_mode, render_on_cmd, render_on_event_setup,
    render_on_func, render_on_func_setup, render_on_lua, render_on_map_setup, render_packadd,
};
use rsplug::lazy_registration::{dedup_trigger_ids, lua_string, LazyRegistration};
use rsplug::lazy_type::{KeyPattern, LazyType, LoadEvent, ModeChar};
use rsplug::loaded::PluginId;
use rsplug::order::{SortedMap, SortedSet};
use rsplug::path::Path;

fn names(list: &[&str]) -> SortedSet<String> {
    let mut set = SortedSet::new();
    for name in list {
        set.insert(name.to_string());
    }
    set
}

fn script(start: Option<&str>, before: Option<&str>, after: Option<&str>) -> SetupScript {
    SetupScript::from(SetupScriptOne {
        lua_start: start.map(str::to_string),
        lua_after: after.map(str::to_string),
        lua_before: before.map(str::to_string),
    })
}

fn triggered(digest: u128, events: Vec<LoadEvent>, order: usize) -> LazyRegistration {
    let mut set = SortedSet::new();
    for event in events {
        set.insert(event);
    }
    LazyRegistration::create(
        PluginId { digest },
        names(&[]),
        LazyType::Opt(set),
        SetupScript::default(),
        order,
    )
}

fn id(digest: u128) -> String {
    PluginId { digest }.as_str()
}

fn text(s: &str) -> String {
    s.to_string()
}

#[test]
fn lua_string_literal_handles_quotes_controls_and_utf8() {
    assert_eq!(
        lua_string("quote\" slash\\ line\n\r\t\0 日本語").to_string(),
        "\"quote\\\" slash\\\\ line\\n\\r\\t\\000 日本語\""
    );
}

#[test]
fn lua_start_template_wraps_scripts_in_order() {
    let rendered = render_lua_start(&vec![
        "vim.g.first = true".to_string(),
        "return vim.g.first".to_string(),
    ]);

    let first_pos = rendered.find("vim.g.first = true").unwrap();
    let second_pos = rendered.find("return vim.g.first").unwrap();

    assert!(rendered.starts_with("-- Auto generated by rsplug\n"));
    assert!(first_pos < second_pos);
    assert_eq!(rendered.matches("(function()\n").count(), 2);
}

#[test]
fn triggers_are_registered_by_kind() {
    let events = vec![
        LoadEvent::Autocmd(text("VimEnter")),
        LoadEvent::UserCmd(text("Cmd")),
        LoadEvent::FileType(text("lua")),
        LoadEvent::VimFunc(text("f")),
        LoadEvent::LuaModule(text("m")),
        LoadEvent::OnMap(KeyPattern::all_modes(&vec![text("<C-a>")])),
    ];
    let r = triggered(1, events, 0);
    assert!(!r.is_empty());
    let own = vec![id(1)];
    assert_eq!(r.event2pkgid.get(&text("VimEnter")).unwrap(), &own);
    assert_eq!(r.cmd2pkgid.get(&text("Cmd")).unwrap(), &own);
    assert_eq!(r.ft2pkgid.get(&text("lua")).unwrap(), &own);
    assert_eq!(r.func2pkgid.get(&text("f")).unwrap(), &own);
    assert_eq!(r.luam2pkgid.get(&text("m")).unwrap(), &own);
    let keys = r.keypattern2pkgid.get(&ModeChar(None)).unwrap();
    assert_eq!(keys.get(&text("<C-a>")).unwrap(), &own);
    assert_eq!(r.ft_index_pairs().get(&text("lua")).unwrap(), &own);
}

#[test]
fn registrations_add_up_in_order() {
    let event = || vec![LoadEvent::Autocmd(text("VimEnter"))];
    let sum = LazyRegistration::sum(vec![triggered(2, event(), 0), triggered(1, event(), 1)]);
    assert_eq!(sum.event_ids(&text("VimEnter")), vec![id(2), id(1)]);
    assert!(sum.event_ids(&text("Other")).is_empty());
    let mut both = triggered(2, event(), 0);
    both.add_assign(triggered(1, event(), 1));
    assert_eq!(both.event_ids(&text("VimEnter")), vec![id(2), id(1)]);
    assert!(LazyRegistration::new().is_empty());
    assert!(LazyRegistration::sum(Vec::new()).is_empty());
}

#[test]
fn triggers_name_a_package_once() {
    let mut records = SortedMap::new();
    records.insert(text("e"), vec![text("a"), text("b"), text("a")]);
    dedup_trigger_ids(&mut records);
    assert_eq!(
        records.get(&text("e")).unwrap(),
        &vec![text("a"), text("b")]
    );
}

#[test]
fn startup_scripts_come_in_order() {
    let start = |digest: u128, order: usize, code: &str| {
        LazyRegistration::create(
            PluginId { digest },
            names(&[]),
            LazyType::Start,
            script(Some(code), Some("before"), None),
            order,
        )
    };
    let r = LazyRegistration::sum(vec![start(1, 1, "second"), start(2, 0, "first")]);
    let inputs = r.template_inputs().unwrap();
    assert_eq!(inputs.startup_scripts, vec!["first", "second"]);
    assert_eq!(inputs.hooks.len(), 2);
    assert_eq!(inputs.hooks[0].before, vec!["before"]);
    assert!(LazyRegistration::new().template_inputs().is_none());
}

#[test]
fn packages_follow_the_plugins_they_name() {
    let mut sources = SortedMap::new();
    sources.insert(text("host"), vec![text("p1"), text("p2")]);
    sources.insert(text("nobody"), vec![text("p3")]);
    let mut targets = SortedMap::new();
    targets.insert(text("host"), text("h"));
    assert_eq!(
        build_source2pkgid(&sources, &targets),
        vec![(text("h"), vec![text("p1"), text("p2")])]
    );
}

#[test]
fn hook_modules_are_named_by_their_text() {
    let a = hook_module_id(&b"a".to_vec());
    assert_eq!(a, hook_module_id(&b"a".to_vec()));
    assert_ne!(a, hook_module_id(&b"b".to_vec()));
    assert!(hook_modules(&Vec::new(), &Vec::new()).is_empty());
}

#[test]
fn control_packages_hold_the_loaders() {
    let r = triggered(
        1,
        vec![
            LoadEvent::Autocmd(text("VimEnter")),
            LoadEvent::FileType(text("lua")),
        ],
        0,
    );
    let inputs = r.template_inputs().unwrap();
    let part = |s: &str| Rendered {
        setup: format!("{s} setup").into_bytes(),
        runtime: format!("{s} runtime").into_bytes(),
    };
    let texts = ControlTexts {
        help: b"help".to_vec(),
        hooks: Vec::new(),
        init: b"init".to_vec(),
        on_ft: b"ft".to_vec(),
        ftplugins: vec![b"ftplugin".to_vec()],
        on_event: part("event"),
        on_func: part("func"),
        on_cmd: part("cmd"),
        on_lua: part("lua"),
        on_map: part("map"),
        modes: Vec::new(),
    };
    let plugs = r.control_plugins(&inputs, &texts);
    assert!(!plugs.is_empty());
    assert!(plugs.iter().all(|p| p.is_lazy_registration));
    let all: Vec<String> = plugs
        .iter()
        .flat_map(|p| (0..p.files.len()).map(|i| p.files.key_at(i).to_text()))
        .collect();
    assert!(all.iter().any(|p| p.contains("_rsplug")), "got {all:?}");
}

#[test]
fn instant_packages_hold_one_file() {
    let p = instant_startup_pkg("plugin/x.lua", b"data".to_vec());
    assert!(p.is_lazy_registration);
    assert_eq!(p.files.len(), 1);
    assert!(p.files.contains(&Path::parse("plugin/x.lua")));
}

fn plugin_id(bytes: &[u8]) -> String {
    PluginId { digest: xxhash_rust::xxh3::xxh3_128(bytes) }.as_str()
}

fn table(entries: &[(&str, Vec<String>)]) -> SortedMap<String, Vec<String>> {
    let mut map = SortedMap::new();
    for (key, ids) in entries {
        map.insert(key.to_string(), ids.clone());
    }
    map
}

#[test]
fn on_func_template_uses_funcundefined_for_autoload_functions() {
    let rendered = render_on_func_setup(&table(&[("foo#bar", Vec::new())]));

    assert!(rendered.contains("FuncUndefined"));
    assert!(rendered.contains("autoload_handler(\"foo#bar\")"));
    assert!(!rendered.contains("function! foo#bar"));
}

#[test]
fn on_func_runtime_guards_nested_funcundefined_while_packadding_autoload() {
    let id = plugin_id(b"foo-plugin");
    let rendered = render_on_func(&table(&[("foo#bar", vec![id])]));

    assert!(rendered.contains("called_autoload_prefix"));
    assert!(rendered.contains("vim.o.eventignore = 'FuncUndefined'"));
    assert!(rendered.contains("vim.o.eventignore = save_eventignore"));
    assert!(rendered.contains("pcall(packadd_all, func)"));
}

#[test]
fn on_func_runtime_template_closes_return_table() {
    let rendered = render_on_func(&table(&[("foo#bar", Vec::new())]));

    assert!(
        rendered.trim_end().ends_with('}'),
        "rendered on_func.lua:\n{rendered}"
    );
}

#[test]
fn on_cmd_delegates_once_with_command_metadata_and_arguments() {
    let id = plugin_id(b"command-plugin");
    let rendered = render_on_cmd(&table(&[("MyCommand", vec![id])]));

    assert!(rendered.contains("local function command_line"));
    assert!(rendered.contains("nvim_get_commands { builtin = false }"));
    assert!(rendered.contains("vim.cmd(command_line(cmd, args, cmdinfo))"));
    assert!(!rendered.contains("match '^E481:'"));
    assert!(!rendered.contains("vim.cmd(range .. cmdline)"));
}

#[test]
fn custom_packadd_template_packadds_startup_plugins() {
    let startup_plugin = plugin_id(b"startup-plugin");
    let rendered = render_packadd(&Vec::new(), &vec![startup_plugin.clone()], &Vec::new());

    assert!(rendered.contains(&format!(
        "local startup_plugins = {{\"{startup_plugin}\",}}"
    )));
    assert!(!rendered.contains("startup_scripts"));
    assert!(rendered.contains("require '_rsplug'.packadd(id, true)"));
    assert!(!rendered.contains("vim.list_contains(result"));
}

#[test]
fn tables_name_packages_in_order() {
    assert_eq!(
        render_ftplugin("rust", &vec![text("b"), text("a")]),
        "-- Auto generated by rsplug\nrequire '_rsplug.on_ft'.load(\"rust\", {\"b\",\"a\",})\n"
    );
    assert_eq!(
        render_mode(&table(&[("gz", vec![text("x")]), ("<C-\"a", vec![])])),
        "-- Auto generated by rsplug\nreturn {\n  [\"<C-\\\"a\"] = {},\n  [\"gz\"] = {\"x\",},\n}\n"
    );
    assert_eq!(
        render_hooks(&vec![text("a()")], &vec![]),
        "-- Auto generated by rsplug\nreturn {\n  before = function()\n(function()\na()\nend)();\n  end,\n  after = function()\n  end,\n}\n"
    );
    let events = render_on_event_setup(&table(&[("VimEnter", vec![]), ("BufRead", vec![])]));
    assert!(events.contains("ipairs {\"BufRead\",\"VimEnter\",} do"));
    let mut modes = SortedMap::new();
    modes.insert(ModeChar(Some('n')), table(&[]));
    modes.insert(ModeChar(None), table(&[]));
    assert!(render_on_map_setup(&modes).contains("ipairs {\"\",\"n\",} do"));
    let mut inverse = SortedMap::new();
    inverse.insert(text("x"), names(&["b", "a"]));
    let lua = render_on_lua(&table(&[("a", vec![text("x")])]), &inverse);
    assert!(lua.contains("luam2pkgid = {\n  [\"a\"] = {\"x\",},\n}\n"));
    assert!(lua.contains("pkgid2luam = {\n  [\"x\"] = {\"a\",\"b\",},\n}\n"));
}

#[test]
fn nothing_is_generated_for_nothing() {
    assert!(LazyRegistration::new().packages(Vec::new()).is_empty());
}

#[test]
fn packages_hold_the_rendered_files() {
    let reg = triggered(7, vec![LoadEvent::UserCmd(text("Go"))], 0);
    let plugs = reg.packages(b"help".to_vec());
    let wanted = render_on_cmd(&table(&[("Go", vec![id(7)])]));
    let module = Path::parse("lua/_rsplug/on_cmd.lua");
    assert!(plugs.iter().any(|p| match p.files.get(&module) {
        Some(item) => match &*item.source {
            FileSource::File { data } => *data == wanted.clone().into_bytes(),
            _ => false,
        },
        None => false,
    }));
}

#[test]
fn later_controls_are_escaped_as_bytes() {
    assert_eq!(lua_string("\u{80}"), "\"\\194\\128\"");
    assert_eq!(lua_string("a\u{85}\u{9f}b"), "\"a\\194\\133\\194\\159b\"");
    assert_eq!(lua_string("\u{7f}"), "\"\\127\"");
    assert_eq!(lua_string("\u{a0}é"), "\"\u{a0}é\"");
}
