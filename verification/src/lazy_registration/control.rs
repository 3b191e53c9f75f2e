//! The packages that are generated for lazy loading.

use crate::config::{Scripts, SetupScript};
use crate::digest;
use crate::files;
use crate::files::{FileItem, FileSource, Item, MergeType, Source};
use crate::identity::{duplicate_bytes, FileId, FileIdentity};
use crate::lazy_registration::inputs::{HookScripts, TemplateInputs};
use crate::lazy_registration::LazyRegistration;
use crate::lazy_type;
use crate::lazy_type::{Lazy, LazyType};
use crate::loaded::{LoadedPlugin, Plugin};
use crate::merge;
use crate::order;
use crate::order::{Key, SortedMap, SortedSet};
use crate::path;
use crate::path::{Part, Path};
use crate::text;
use std::sync::Arc;
use vstd::prelude::*;

verus! {

/// A generated file.
pub open spec fn generated_item(p: Seq<Part>, data: Seq<u8>) -> Item {
    Item {
        source: Source::File { data },
        identity: FileId::GeneratedFile { path: p, data_hash: digest::xxh3_digest(data) },
        merge_type: MergeType::Overwrite,
    }
}

/// A generated package.
pub open spec fn generated_plugin(name: Seq<char>, m: Map<Seq<Part>, Item>) -> Plugin {
    Plugin {
        source_names: seq![name],
        lazy: Lazy::Start,
        files: m,
        script: Scripts {
            lua_start: Seq::empty(),
            lua_after: Seq::empty(),
            lua_before: Seq::empty(),
        },
        order: usize::MAX as int,
        merge_enabled: true,
        is_lazy_registration: true,
        dotgit: false,
    }
}

/// The files with one more generated file.
pub open spec fn with_file(m: Map<Seq<Part>, Item>, p: Seq<char>, data: Seq<u8>) -> Map<
    Seq<Part>,
    Item,
> {
    m.insert(path::parse_text(p), generated_item(path::parse_text(p), data))
}

pub open spec fn no_files() -> Map<Seq<Part>, Item> {
    Map::empty()
}

/// A generated package of one file.
pub open spec fn instant(p: Seq<char>, data: Seq<u8>) -> Plugin {
    generated_plugin("_rsplug:"@ + p, with_file(no_files(), p, data))
}

/// A text of the digest of data: 32 hexadecimal digits.
pub open spec fn data_hex(data: Seq<u8>) -> Seq<char> {
    digest::digest_text(digest::xxh3_digest(data))
}

/// The module of a rendered hook, as `require` takes it.
pub open spec fn hook_module(data: Seq<u8>) -> Seq<char> {
    "_rsplug/hooks_"@ + data_hex(data)
}

/// The file of a rendered hook.
pub open spec fn hook_path(data: Seq<u8>) -> Seq<char> {
    "lua/"@ + hook_module(data) + ".lua"@
}

/// A file that runs at startup, named by its content.
pub open spec fn plugin_path(data: Seq<u8>) -> Seq<char> {
    "plugin/"@ + data_hex(data) + ".lua"@
}

/// The file that loads packages for a file type, named by its content.
pub open spec fn ftplugin_path(ft: Seq<char>, data: Seq<u8>) -> Seq<char> {
    "ftplugin/"@ + ft + "/"@ + data_hex(data) + ".lua"@
}

/// The file of the mappings of a mode.
pub open spec fn mode_path(mode: Option<char>) -> Seq<char> {
    "lua/_rsplug/on_map/mode_"@ + (match mode {
        Some(c) => seq![c],
        None => Seq::empty(),
    }) + ".lua"@
}

/// A startup script in a function of its own.
pub open spec fn wrapped_script(script: Seq<char>) -> Seq<char> {
    "(function()\n"@ + script + "\nend)();\n"@
}

/// Startup scripts one behind the other, each in a function of its own.
pub open spec fn wrapped_scripts(scripts: Seq<Seq<char>>) -> Seq<char>
    decreases scripts.len(),
{
    if scripts.len() == 0 {
        Seq::empty()
    } else {
        wrapped_scripts(scripts.drop_last()) + wrapped_script(scripts.last())
    }
}

/// The file that runs the startup scripts.
pub open spec fn lua_start_text(scripts: Seq<Seq<char>>) -> Seq<char> {
    "-- Auto generated by rsplug\n"@ + wrapped_scripts(scripts)
}

/// The file that runs the startup scripts: each in a function of its own, so that `return` and
/// local names of one do not reach the next.
pub fn render_lua_start(startup_scripts: &Vec<String>) -> (rendered: String)
    ensures
        rendered@ == lua_start_text(text::strings(startup_scripts@)),
{
    let mut rendered = String::from_str("-- Auto generated by rsplug\n");
    push_scripts(&mut rendered, startup_scripts);
    rendered
}

/// Appends scripts, each in a function of its own.
pub(crate) fn push_scripts(out: &mut String, scripts: &Vec<String>)
    ensures
        final(out)@ == old(out)@ + wrapped_scripts(text::strings(scripts@)),
{
    let ghost all = text::strings(scripts@);
    let ghost head = out@;
    let mut i: usize = 0;
    proof {
        assert(all.take(0) =~= Seq::<Seq<char>>::empty());
        assert(head + wrapped_scripts(all.take(0)) =~= head);
    }
    while i < scripts.len()
        invariant
            i <= scripts@.len(),
            all == text::strings(scripts@),
            out@ == head + wrapped_scripts(all.take(i as int)),
        decreases scripts@.len() - i,
    {
        let ghost before = wrapped_scripts(all.take(i as int));
        proof {
            assert(all.take(i as int + 1).drop_last() =~= all.take(i as int));
            assert(all.take(i as int + 1).last() == scripts@[i as int]@);
        }
        out.append("(function()\n");
        out.append(scripts[i].as_str());
        out.append("\nend)();\n");
        assert(out@ =~= head + (before + wrapped_script(all[i as int])));
        i = i + 1;
    }
    assert(all.take(i as int) =~= all);
}

pub(crate) fn bytes_of(s: &str) -> (bytes: Vec<u8>)
    ensures
        bytes@ == vstd::utf8::encode_utf8(s@),
{
    let mut bytes: Vec<u8> = Vec::new();
    digest::push_raw(&mut bytes, s.as_bytes());
    assert(bytes@ =~= vstd::utf8::encode_utf8(s@));
    bytes
}

fn hex_of(data: &Vec<u8>) -> (hex: String)
    ensures
        hex@ == data_hex(data@),
{
    digest::digest_string(digest::xxh3_128(data))
}

/// The module of a rendered hook, as `require` takes it: named by its content.
pub fn hook_module_id(data: &Vec<u8>) -> (id: String)
    ensures
        id@ == hook_module(data@),
{
    String::from_str("_rsplug/hooks_").concat(hex_of(data).as_str())
}

/// The packages that have hooks, each with the module of its rendered hook.
pub open spec fn modules_of(hooks: Seq<HookScripts>, rendered: Seq<Vec<u8>>) -> Seq<
    (Seq<char>, Seq<char>),
> {
    Seq::new(hooks.len(), |i: int| (hooks[i].pkgid@, hook_module(rendered[i]@)))
}

/// The packages that have hooks, each with the module of its rendered hook.
pub fn hook_modules(hooks: &Vec<HookScripts>, rendered: &Vec<Vec<u8>>) -> (list: Vec<
    (String, String),
>)
    requires
        rendered@.len() == hooks@.len(),
    ensures
        list@.map_values(|e: (String, String)| (e.0@, e.1@)) == modules_of(hooks@, rendered@),
{
    let mut list: Vec<(String, String)> = Vec::new();
    let mut i: usize = 0;
    while i < hooks.len()
        invariant
            i <= hooks@.len(),
            rendered@.len() == hooks@.len(),
            list@.len() == i,
            forall|k: int|
                0 <= k < i ==> (#[trigger] list@[k]).0@ == hooks@[k].pkgid@ && list@[k].1@
                    == hook_module(rendered@[k]@),
        decreases hooks@.len() - i,
    {
        list.push((hooks[i].pkgid.clone(), hook_module_id(&rendered[i])));
        i = i + 1;
    }
    assert(list@.map_values(|e: (String, String)| (e.0@, e.1@)) =~= modules_of(
        hooks@,
        rendered@,
    ));
    list
}

fn startup_path(data: &Vec<u8>) -> (p: String)
    ensures
        p@ == plugin_path(data@),
{
    let mut p = String::from_str("plugin/");
    p.append(hex_of(data).as_str());
    p.append(".lua");
    p
}

/// Adds a generated file.
pub(crate) fn add_file(files: &mut SortedMap<Path, FileItem>, p: &str, data: Vec<u8>)
    requires
        files::files_wf(*old(files)),
    ensures
        files::files_wf(*final(files)),
        files::files_map(*final(files)) == with_file(files::files_map(*old(files)), p@, data@),
{
    let ghost before = *files;
    let ghost bytes = data@;
    let key = Path::parse(p);
    let ghost k = key@;
    let data_hash: u128 = digest::xxh3_128(&data);
    let item = FileItem::new(
        Arc::new(FileSource::File { data }),
        FileIdentity::GeneratedFile { path: key.duplicated(), data_hash },
        MergeType::Overwrite,
    );
    let ghost added = item;
    assert(item@ == generated_item(k, bytes));
    files.insert(key, item);
    proof {
        assert forall|q: Seq<Part>| #[trigger] files.has(q) implies files.at(q).wf() by {
            if q != k {
                assert(before.has(q));
            }
        }
        assert(files::files_map(*files) =~= with_file(files::files_map(before), p@, bytes));
    }
}

fn plugin_of(name: String, files: SortedMap<Path, FileItem>) -> (plugin: LoadedPlugin)
    requires
        files::files_wf(files),
    ensures
        plugin.wf(),
        plugin@ == generated_plugin(name@, files::files_map(files)),
{
    let ghost n = name@;
    let mut source_names: SortedSet<String> = SortedSet::new();
    source_names.insert(name);
    let script: SetupScript = Default::default();
    proof {
        assert(source_names.members() =~= seq![n]) by {
            assert(source_names.has(n));
            assert forall|i: int| 0 <= i < source_names.members().len() implies source_names.members()[i] == n by {
                assert(source_names.has(source_names.members()[i]));
            }
            order::lemma_ascending_distinct::<String>(source_names.members());
            if source_names.members().len() > 1 {
                assert(source_names.members()[0] == source_names.members()[1]);
            }
        }
        assert(script@.lua_start =~= Seq::<Seq<char>>::empty());
        assert(script@.lua_after =~= Seq::<Seq<char>>::empty());
        assert(script@.lua_before =~= Seq::<Seq<char>>::empty());
    }
    LoadedPlugin {
        source_names,
        lazy_type: LazyType::Start,
        files,
        script,
        order: usize::MAX,
        merge_enabled: true,
        is_lazy_registration: true,
        dotgit: false,
    }
}

/// A package that places one generated file.
pub fn instant_startup_pkg(p: &str, data: Vec<u8>) -> (plugin: LoadedPlugin)
    ensures
        plugin.wf(),
        plugin@ == instant(p@, data@),
{
    let mut files: SortedMap<Path, FileItem> = SortedMap::new();
    assert(files::files_map(files) =~= no_files());
    add_file(&mut files, p, data);
    plugin_of(String::from_str("_rsplug:").concat(p), files)
}

/// A file that runs at startup, and the module that it calls.
pub struct Rendered {
    pub setup: Vec<u8>,
    pub runtime: Vec<u8>,
}

/// A package of a module and the file that runs at startup.
pub open spec fn paired(name: Seq<char>, module: Seq<char>, setup: Seq<u8>, runtime: Seq<u8>) -> Plugin {
    generated_plugin(
        name,
        with_file(with_file(no_files(), module, runtime), plugin_path(setup), setup),
    )
}

fn paired_pkg(name: &str, module: &str, rendered: &Rendered) -> (plugin: LoadedPlugin)
    ensures
        plugin.wf(),
        plugin@ == paired(name@, module@, rendered.setup@, rendered.runtime@),
{
    let mut files: SortedMap<Path, FileItem> = SortedMap::new();
    assert(files::files_map(files) =~= no_files());
    add_file(&mut files, module, duplicate_bytes(&rendered.runtime));
    let p = startup_path(&rendered.setup);
    add_file(&mut files, p.as_str(), duplicate_bytes(&rendered.setup));
    plugin_of(String::from_str(name), files)
}

/// The rendered files.  Those of a sort of trigger that nothing uses are left out of account.
pub struct ControlTexts {
    /// The help file.
    pub help: Vec<u8>,
    /// The modules of the hooks, in their order.
    pub hooks: Vec<Vec<u8>>,
    /// The module that loads packages.
    pub init: Vec<u8>,
    /// The module for file types.
    pub on_ft: Vec<u8>,
    /// The file of each file type, in order.
    pub ftplugins: Vec<Vec<u8>>,
    pub on_event: Rendered,
    pub on_func: Rendered,
    pub on_cmd: Rendered,
    pub on_lua: Rendered,
    /// The file that sets up mappings, and the module that it calls.
    pub on_map: Rendered,
    /// The module of each mode, in order.
    pub modes: Vec<Vec<u8>>,
}

/// The packages of the hooks.
pub open spec fn hook_plugins(hooks: Seq<Vec<u8>>) -> Seq<Plugin> {
    hooks.map_values(|data: Vec<u8>| instant(hook_path(data@), data@))
}

/// The package of the module that loads packages, with the startup scripts if there are any.
pub open spec fn init_plugin(init: Seq<u8>, scripts: Seq<Seq<char>>) -> Plugin {
    let files = with_file(no_files(), "lua/_rsplug/init.lua"@, init);
    generated_plugin(
        "_rsplug:init"@,
        if scripts.len() == 0 {
            files
        } else {
            with_file(
                files,
                "plugin/lua_start.lua"@,
                vstd::utf8::encode_utf8(lua_start_text(scripts)),
            )
        },
    )
}

/// The packages for file types.
pub open spec fn ft_plugins(fts: Seq<Seq<char>>, on_ft: Seq<u8>, datas: Seq<Vec<u8>>) -> Seq<Plugin> {
    if fts.len() == 0 {
        Seq::empty()
    } else {
        seq![instant("lua/_rsplug/on_ft.lua"@, on_ft)] + Seq::new(
            fts.len(),
            |i: int| instant(ftplugin_path(fts[i], datas[i]@), datas[i]@),
        )
    }
}

/// A package of a module and its setup, if anything needs it.
pub open spec fn pair_if(
    needed: bool,
    name: Seq<char>,
    module: Seq<char>,
    rendered: Rendered,
) -> Seq<Plugin> {
    if needed {
        seq![paired(name, module, rendered.setup@, rendered.runtime@)]
    } else {
        Seq::empty()
    }
}

/// The packages for mappings.
pub open spec fn map_plugins(modes: Seq<Option<char>>, on_map: Rendered, datas: Seq<Vec<u8>>) -> Seq<
    Plugin,
> {
    if modes.len() == 0 {
        Seq::empty()
    } else {
        seq![
            instant(plugin_path(on_map.setup@), on_map.setup@),
            instant("lua/_rsplug/on_map/init.lua"@, on_map.runtime@),
        ] + Seq::new(modes.len(), |i: int| instant(mode_path(modes[i]), datas[i]@))
    }
}

/// All generated packages, in order.
pub open spec fn control(r: LazyRegistration, scripts: Seq<Seq<char>>, texts: ControlTexts) -> Seq<
    Plugin,
> {
    seq![instant("./doc/rsplug.txt"@, texts.help@)] + hook_plugins(texts.hooks@) + seq![
        init_plugin(texts.init@, scripts),
    ] + ft_plugins(r.ft2pkgid.keys(), texts.on_ft@, texts.ftplugins@) + pair_if(
        r.event2pkgid.keys().len() > 0,
        "_rsplug:on_event"@,
        "lua/_rsplug/on_event.lua"@,
        texts.on_event,
    ) + pair_if(
        r.func2pkgid.keys().len() > 0,
        "_rsplug:on_func"@,
        "lua/_rsplug/on_func.lua"@,
        texts.on_func,
    ) + pair_if(
        r.cmd2pkgid.keys().len() > 0,
        "_rsplug:on_cmd"@,
        "lua/_rsplug/on_cmd.lua"@,
        texts.on_cmd,
    ) + pair_if(
        r.luam2pkgid.keys().len() > 0,
        "_rsplug:on_lua"@,
        "lua/_rsplug/on_lua.lua"@,
        texts.on_lua,
    ) + map_plugins(r.keypattern2pkgid.keys(), texts.on_map, texts.modes@)
}

pub open spec fn all_wf(list: Seq<LoadedPlugin>) -> bool {
    forall|i: int| 0 <= i < list.len() ==> (#[trigger] list[i]).wf()
}

fn add_hooks(plugs: &mut Vec<LoadedPlugin>, hooks: &Vec<Vec<u8>>)
    requires
        all_wf(old(plugs)@),
    ensures
        all_wf(final(plugs)@),
        merge::plugin_models(final(plugs)@) == merge::plugin_models(old(plugs)@) + hook_plugins(
            hooks@,
        ),
{
    let ghost before = merge::plugin_models(plugs@);
    let ghost all = hook_plugins(hooks@);
    let mut i: usize = 0;
    assert(before + all.take(0) =~= before);
    while i < hooks.len()
        invariant
            i <= hooks@.len(),
            all == hook_plugins(hooks@),
            all_wf(plugs@),
            merge::plugin_models(plugs@) == before + all.take(i as int),
        decreases hooks@.len() - i,
    {
        let ghost raw = plugs@;
        let data = duplicate_bytes(&hooks[i]);
        let mut p = String::from_str("lua/");
        p.append(hook_module_id(&data).as_str());
        p.append(".lua");
        plugs.push(instant_startup_pkg(p.as_str(), data));
        assert(merge::plugin_models(plugs@) =~= merge::plugin_models(raw).push(all[i as int]));
        assert(before + all.take(i as int + 1) =~= (before + all.take(i as int)).push(
            all[i as int],
        ));
        i = i + 1;
    }
    assert(all.take(i as int) =~= all);
}

fn add_ftplugins(plugs: &mut Vec<LoadedPlugin>, r: &LazyRegistration, texts: &ControlTexts)
    requires
        r.wf(),
        all_wf(old(plugs)@),
        texts.ftplugins@.len() == r.ft2pkgid.keys().len(),
    ensures
        all_wf(final(plugs)@),
        merge::plugin_models(final(plugs)@) == merge::plugin_models(old(plugs)@) + ft_plugins(
            r.ft2pkgid.keys(),
            texts.on_ft@,
            texts.ftplugins@,
        ),
{
    let ghost before = merge::plugin_models(plugs@);
    let ghost fts = r.ft2pkgid.keys();
    let ghost all = ft_plugins(fts, texts.on_ft@, texts.ftplugins@);
    if r.ft2pkgid.is_empty() {
        assert(before + all =~= before);
        return;
    }
    let ghost raw = plugs@;
    plugs.push(instant_startup_pkg("lua/_rsplug/on_ft.lua", duplicate_bytes(&texts.on_ft)));
    assert(merge::plugin_models(plugs@) =~= merge::plugin_models(raw).push(all[0]));
    assert(before + all.take(1) =~= before.push(all[0]));
    let n: usize = r.ft2pkgid.len();
    let mut i: usize = 0;
    while i < n
        invariant
            i <= n,
            fts == r.ft2pkgid.keys(),
            n == fts.len(),
            n > 0,
            texts.ftplugins@.len() == n,
            all == ft_plugins(fts, texts.on_ft@, texts.ftplugins@),
            all_wf(plugs@),
            merge::plugin_models(plugs@) == before + all.take(i as int + 1),
        decreases n - i,
    {
        let ghost raw = plugs@;
        let data = duplicate_bytes(&texts.ftplugins[i]);
        let mut p = String::from_str("ftplugin/");
        p.append(r.ft2pkgid.key_at(i).as_str());
        p.append("/");
        p.append(hex_of(&data).as_str());
        p.append(".lua");
        plugs.push(instant_startup_pkg(p.as_str(), data));
        assert(merge::plugin_models(plugs@) =~= merge::plugin_models(raw).push(all[i as int + 1]));
        assert(before + all.take(i as int + 2) =~= (before + all.take(i as int + 1)).push(
            all[i as int + 1],
        ));
        i = i + 1;
    }
    assert(all.take(i as int + 1) =~= all);
}

fn add_pair(plugs: &mut Vec<LoadedPlugin>, needed: bool, name: &str, module: &str, rendered: &Rendered)
    requires
        all_wf(old(plugs)@),
    ensures
        all_wf(final(plugs)@),
        merge::plugin_models(final(plugs)@) == merge::plugin_models(old(plugs)@) + pair_if(
            needed,
            name@,
            module@,
            *rendered,
        ),
{
    let ghost before = merge::plugin_models(plugs@);
    let ghost all = pair_if(needed, name@, module@, *rendered);
    if needed {
        plugs.push(paired_pkg(name, module, rendered));
        assert(merge::plugin_models(plugs@) =~= before + all);
    } else {
        assert(before + all =~= before);
    }
}

fn add_modes(plugs: &mut Vec<LoadedPlugin>, r: &LazyRegistration, texts: &ControlTexts)
    requires
        r.wf(),
        all_wf(old(plugs)@),
        texts.modes@.len() == r.keypattern2pkgid.keys().len(),
    ensures
        all_wf(final(plugs)@),
        merge::plugin_models(final(plugs)@) == merge::plugin_models(old(plugs)@) + map_plugins(
            r.keypattern2pkgid.keys(),
            texts.on_map,
            texts.modes@,
        ),
{
    let ghost before = merge::plugin_models(plugs@);
    let ghost modes = r.keypattern2pkgid.keys();
    let ghost all = map_plugins(modes, texts.on_map, texts.modes@);
    if r.keypattern2pkgid.is_empty() {
        assert(before + all =~= before);
        return;
    }
    let ghost raw = plugs@;
    let p = startup_path(&texts.on_map.setup);
    plugs.push(instant_startup_pkg(p.as_str(), duplicate_bytes(&texts.on_map.setup)));
    plugs.push(
        instant_startup_pkg("lua/_rsplug/on_map/init.lua", duplicate_bytes(&texts.on_map.runtime)),
    );
    assert(merge::plugin_models(plugs@) =~= merge::plugin_models(raw).push(all[0]).push(all[1]));
    assert(before + all.take(2) =~= before.push(all[0]).push(all[1]));
    let n: usize = r.keypattern2pkgid.len();
    let mut i: usize = 0;
    while i < n
        invariant
            i <= n,
            modes == r.keypattern2pkgid.keys(),
            n == modes.len(),
            n > 0,
            texts.modes@.len() == n,
            all == map_plugins(modes, texts.on_map, texts.modes@),
            all_wf(plugs@),
            merge::plugin_models(plugs@) == before + all.take(i as int + 2),
        decreases n - i,
    {
        let ghost raw = plugs@;
        let mode = r.keypattern2pkgid.key_at(i);
        let mut p = String::from_str("lua/_rsplug/on_map/mode_");
        p.append(mode.to_text().as_str());
        p.append(".lua");
        assert(p@ == mode_path(modes[i as int]));
        plugs.push(instant_startup_pkg(p.as_str(), duplicate_bytes(&texts.modes[i])));
        assert(merge::plugin_models(plugs@) =~= merge::plugin_models(raw).push(all[i as int + 2]));
        assert(before + all.take(i as int + 3) =~= (before + all.take(i as int + 2)).push(
            all[i as int + 2],
        ));
        i = i + 1;
    }
    assert(all.take(i as int + 2) =~= all);
}

impl LazyRegistration {
    /// The packages that are generated for lazy loading, from the rendered files.
    pub fn control_plugins(&self, inputs: &TemplateInputs, texts: &ControlTexts) -> (plugs: Vec<
        LoadedPlugin,
    >)
        requires
            self.wf(),
            texts.ftplugins@.len() == self.ft2pkgid.keys().len(),
            texts.modes@.len() == self.keypattern2pkgid.keys().len(),
        ensures
            all_wf(plugs@),
            merge::plugin_models(plugs@) == control(
                *self,
                text::strings(inputs.startup_scripts@),
                *texts,
            ),
    {
        let ghost scripts = text::strings(inputs.startup_scripts@);
        let mut plugs: Vec<LoadedPlugin> = Vec::new();
        plugs.push(instant_startup_pkg("./doc/rsplug.txt", duplicate_bytes(&texts.help)));
        assert(merge::plugin_models(plugs@) =~= seq![instant("./doc/rsplug.txt"@, texts.help@)]);
        add_hooks(&mut plugs, &texts.hooks);
        let ghost raw = plugs@;
        let mut files: SortedMap<Path, FileItem> = SortedMap::new();
        assert(files::files_map(files) =~= no_files());
        add_file(&mut files, "lua/_rsplug/init.lua", duplicate_bytes(&texts.init));
        if inputs.startup_scripts.len() > 0 {
            let rendered = render_lua_start(&inputs.startup_scripts);
            add_file(&mut files, "plugin/lua_start.lua", bytes_of(rendered.as_str()));
        }
        plugs.push(plugin_of(String::from_str("_rsplug:init"), files));
        assert(merge::plugin_models(plugs@) =~= merge::plugin_models(raw) + seq![
            init_plugin(texts.init@, scripts),
        ]);
        add_ftplugins(&mut plugs, self, texts);
        add_pair(
            &mut plugs,
            !self.event2pkgid.is_empty(),
            "_rsplug:on_event",
            "lua/_rsplug/on_event.lua",
            &texts.on_event,
        );
        add_pair(
            &mut plugs,
            !self.func2pkgid.is_empty(),
            "_rsplug:on_func",
            "lua/_rsplug/on_func.lua",
            &texts.on_func,
        );
        add_pair(
            &mut plugs,
            !self.cmd2pkgid.is_empty(),
            "_rsplug:on_cmd",
            "lua/_rsplug/on_cmd.lua",
            &texts.on_cmd,
        );
        add_pair(
            &mut plugs,
            !self.luam2pkgid.is_empty(),
            "_rsplug:on_lua",
            "lua/_rsplug/on_lua.lua",
            &texts.on_lua,
        );
        add_modes(&mut plugs, self, texts);
        plugs
    }
}

} // verus!
