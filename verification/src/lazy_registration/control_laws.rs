//! What the generated packages bring.

use crate::files::{MergeType, Source};
use crate::lazy_registration;
use crate::lazy_registration::control;
use crate::lazy_registration::control::ControlTexts;
use crate::lazy_registration::templates;
use crate::lazy_registration::LazyRegistration;
use crate::loaded::Plugin;
use crate::path;
use vstd::prelude::*;

verus! {

/// The package has the file with the data.
pub open spec fn has_data(plugin: Plugin, p: Seq<char>, data: Seq<u8>) -> bool {
    &&& plugin.files.contains_key(path::parse_text(p))
    &&& plugin.files[path::parse_text(p)].source == (Source::File { data })
}

/// One of the packages has the file with the data.
pub open spec fn brings(list: Seq<Plugin>, p: Seq<char>, data: Seq<u8>) -> bool {
    exists|k: int| 0 <= k < list.len() && has_data(#[trigger] list[k], p, data)
}

proof fn lemma_left(a: Seq<Plugin>, b: Seq<Plugin>, p: Seq<char>, data: Seq<u8>)
    ensures
        brings(a, p, data) || brings(b, p, data) ==> brings(a + b, p, data),
{
    if brings(a, p, data) {
        let k = choose|k: int| 0 <= k < a.len() && has_data(#[trigger] a[k], p, data);
        assert((a + b)[k] == a[k]);
    }
    if brings(b, p, data) {
        let k = choose|k: int| 0 <= k < b.len() && has_data(#[trigger] b[k], p, data);
        assert((a + b)[a.len() + k] == b[k]);
    }
}

/// A part of the generated packages brings the file.
proof fn lemma_parts(
    r: LazyRegistration,
    scripts: Seq<Seq<char>>,
    texts: ControlTexts,
    p: Seq<char>,
    data: Seq<u8>,
)
    ensures
        ({
            ||| brings(seq![control::instant("./doc/rsplug.txt"@, texts.help@)], p, data)
            ||| brings(control::hook_plugins(texts.hooks@), p, data)
            ||| brings(seq![control::init_plugin(texts.init@, scripts)], p, data)
            ||| brings(
                control::ft_plugins(r.ft2pkgid.keys(), texts.on_ft@, texts.ftplugins@),
                p,
                data,
            )
            ||| brings(
                control::pair_if(
                    r.event2pkgid.keys().len() > 0,
                    "_rsplug:on_event"@,
                    "lua/_rsplug/on_event.lua"@,
                    texts.on_event,
                ),
                p,
                data,
            )
            ||| brings(
                control::pair_if(
                    r.func2pkgid.keys().len() > 0,
                    "_rsplug:on_func"@,
                    "lua/_rsplug/on_func.lua"@,
                    texts.on_func,
                ),
                p,
                data,
            )
            ||| brings(
                control::pair_if(
                    r.cmd2pkgid.keys().len() > 0,
                    "_rsplug:on_cmd"@,
                    "lua/_rsplug/on_cmd.lua"@,
                    texts.on_cmd,
                ),
                p,
                data,
            )
            ||| brings(
                control::pair_if(
                    r.luam2pkgid.keys().len() > 0,
                    "_rsplug:on_lua"@,
                    "lua/_rsplug/on_lua.lua"@,
                    texts.on_lua,
                ),
                p,
                data,
            )
            ||| brings(
                control::map_plugins(r.keypattern2pkgid.keys(), texts.on_map, texts.modes@),
                p,
                data,
            )
        }) ==> brings(control::control(r, scripts, texts), p, data),
{
    let a0 = seq![control::instant("./doc/rsplug.txt"@, texts.help@)];
    let a1 = control::hook_plugins(texts.hooks@);
    let a2 = seq![control::init_plugin(texts.init@, scripts)];
    let a3 = control::ft_plugins(r.ft2pkgid.keys(), texts.on_ft@, texts.ftplugins@);
    let a4 = control::pair_if(
        r.event2pkgid.keys().len() > 0,
        "_rsplug:on_event"@,
        "lua/_rsplug/on_event.lua"@,
        texts.on_event,
    );
    let a5 = control::pair_if(
        r.func2pkgid.keys().len() > 0,
        "_rsplug:on_func"@,
        "lua/_rsplug/on_func.lua"@,
        texts.on_func,
    );
    let a6 = control::pair_if(
        r.cmd2pkgid.keys().len() > 0,
        "_rsplug:on_cmd"@,
        "lua/_rsplug/on_cmd.lua"@,
        texts.on_cmd,
    );
    let a7 = control::pair_if(
        r.luam2pkgid.keys().len() > 0,
        "_rsplug:on_lua"@,
        "lua/_rsplug/on_lua.lua"@,
        texts.on_lua,
    );
    let a8 = control::map_plugins(r.keypattern2pkgid.keys(), texts.on_map, texts.modes@);
    lemma_left(a0, a1, p, data);
    lemma_left(a0 + a1, a2, p, data);
    lemma_left(a0 + a1 + a2, a3, p, data);
    lemma_left(a0 + a1 + a2 + a3, a4, p, data);
    lemma_left(a0 + a1 + a2 + a3 + a4, a5, p, data);
    lemma_left(a0 + a1 + a2 + a3 + a4 + a5, a6, p, data);
    lemma_left(a0 + a1 + a2 + a3 + a4 + a5 + a6, a7, p, data);
    lemma_left(a0 + a1 + a2 + a3 + a4 + a5 + a6 + a7, a8, p, data);
}

/// The help file, the module of every hook, and the file of startup scripts where there are any, are
/// brought.
pub proof fn law_hooks_and_scripts_brought(
    r: LazyRegistration,
    scripts: Seq<Seq<char>>,
    texts: ControlTexts,
    i: int,
)
    ensures
        ({
            let list = control::control(r, scripts, texts);
            &&& brings(list, "./doc/rsplug.txt"@, texts.help@)
            &&& 0 <= i < texts.hooks@.len() ==> brings(
                list,
                "lua/"@ + control::hook_module(texts.hooks@[i]@) + ".lua"@,
                texts.hooks@[i]@,
            )
            &&& scripts.len() > 0 ==> brings(
                list,
                "plugin/lua_start.lua"@,
                vstd::utf8::encode_utf8(control::lua_start_text(scripts)),
            )
            &&& scripts.len() == 0 ==> brings(list, "lua/_rsplug/init.lua"@, texts.init@)
        }),
{
    let help = seq![control::instant("./doc/rsplug.txt"@, texts.help@)];
    assert(has_data(help[0], "./doc/rsplug.txt"@, texts.help@));
    lemma_parts(r, scripts, texts, "./doc/rsplug.txt"@, texts.help@);
    if 0 <= i < texts.hooks@.len() {
        let data = texts.hooks@[i]@;
        let hooks = control::hook_plugins(texts.hooks@);
        assert(hooks[i] == control::instant(control::hook_path(data), data));
        assert(has_data(hooks[i], control::hook_path(data), data));
        lemma_parts(r, scripts, texts, control::hook_path(data), data);
    }
    let start = vstd::utf8::encode_utf8(control::lua_start_text(scripts));
    let init = seq![control::init_plugin(texts.init@, scripts)];
    if scripts.len() > 0 {
        assert(has_data(init[0], "plugin/lua_start.lua"@, start));
        lemma_parts(r, scripts, texts, "plugin/lua_start.lua"@, start);
    } else {
        assert(has_data(init[0], "lua/_rsplug/init.lua"@, texts.init@));
        lemma_parts(r, scripts, texts, "lua/_rsplug/init.lua"@, texts.init@);
    }
}

/// Every sort of trigger that something is registered under brings what waits for it.
pub proof fn law_triggers_brought(
    r: LazyRegistration,
    scripts: Seq<Seq<char>>,
    texts: ControlTexts,
    i: int,
)
    ensures
        ({
            let list = control::control(r, scripts, texts);
            &&& r.event2pkgid.keys().len() > 0 ==> brings(
                list,
                control::plugin_path(texts.on_event.setup@),
                texts.on_event.setup@,
            )
            &&& r.func2pkgid.keys().len() > 0 ==> brings(
                list,
                control::plugin_path(texts.on_func.setup@),
                texts.on_func.setup@,
            )
            &&& r.cmd2pkgid.keys().len() > 0 ==> brings(
                list,
                control::plugin_path(texts.on_cmd.setup@),
                texts.on_cmd.setup@,
            )
            &&& r.luam2pkgid.keys().len() > 0 ==> brings(
                list,
                control::plugin_path(texts.on_lua.setup@),
                texts.on_lua.setup@,
            )
            &&& r.keypattern2pkgid.keys().len() > 0 ==> brings(
                list,
                control::plugin_path(texts.on_map.setup@),
                texts.on_map.setup@,
            ) && brings(list, "lua/_rsplug/on_map/init.lua"@, texts.on_map.runtime@)
            &&& 0 <= i < r.keypattern2pkgid.keys().len() ==> brings(
                list,
                control::mode_path(r.keypattern2pkgid.keys()[i]),
                texts.modes@[i]@,
            )
            &&& r.ft2pkgid.keys().len() > 0 ==> brings(list, "lua/_rsplug/on_ft.lua"@, texts.on_ft@)
            &&& 0 <= i < r.ft2pkgid.keys().len() ==> brings(
                list,
                control::ftplugin_path(r.ft2pkgid.keys()[i], texts.ftplugins@[i]@),
                texts.ftplugins@[i]@,
            )
        }),
{
    lemma_pair(
        r.event2pkgid.keys().len() > 0,
        "_rsplug:on_event"@,
        "lua/_rsplug/on_event.lua"@,
        texts.on_event,
    );
    lemma_pair(
        r.func2pkgid.keys().len() > 0,
        "_rsplug:on_func"@,
        "lua/_rsplug/on_func.lua"@,
        texts.on_func,
    );
    lemma_pair(
        r.cmd2pkgid.keys().len() > 0,
        "_rsplug:on_cmd"@,
        "lua/_rsplug/on_cmd.lua"@,
        texts.on_cmd,
    );
    lemma_pair(
        r.luam2pkgid.keys().len() > 0,
        "_rsplug:on_lua"@,
        "lua/_rsplug/on_lua.lua"@,
        texts.on_lua,
    );
    lemma_parts(
        r,
        scripts,
        texts,
        control::plugin_path(texts.on_event.setup@),
        texts.on_event.setup@,
    );
    lemma_parts(r, scripts, texts, control::plugin_path(texts.on_func.setup@), texts.on_func.setup@);
    lemma_parts(r, scripts, texts, control::plugin_path(texts.on_cmd.setup@), texts.on_cmd.setup@);
    lemma_parts(r, scripts, texts, control::plugin_path(texts.on_lua.setup@), texts.on_lua.setup@);
    lemma_parts(r, scripts, texts, control::plugin_path(texts.on_map.setup@), texts.on_map.setup@);
    lemma_parts(r, scripts, texts, "lua/_rsplug/on_map/init.lua"@, texts.on_map.runtime@);
    lemma_parts(r, scripts, texts, "lua/_rsplug/on_ft.lua"@, texts.on_ft@);
    let modes = r.keypattern2pkgid.keys();
    let maps = control::map_plugins(modes, texts.on_map, texts.modes@);
    if modes.len() > 0 {
        assert(has_data(
            maps[0],
            control::plugin_path(texts.on_map.setup@),
            texts.on_map.setup@,
        ));
        assert(has_data(maps[1], "lua/_rsplug/on_map/init.lua"@, texts.on_map.runtime@));
        if 0 <= i < modes.len() {
            assert(has_data(maps[i + 2], control::mode_path(modes[i]), texts.modes@[i]@));
            lemma_parts(r, scripts, texts, control::mode_path(modes[i]), texts.modes@[i]@);
        }
    }
    let fts = r.ft2pkgid.keys();
    let plugins = control::ft_plugins(fts, texts.on_ft@, texts.ftplugins@);
    if fts.len() > 0 {
        assert(has_data(plugins[0], "lua/_rsplug/on_ft.lua"@, texts.on_ft@));
        if 0 <= i < fts.len() {
            let data = texts.ftplugins@[i]@;
            assert(has_data(plugins[i + 1], control::ftplugin_path(fts[i], data), data));
            lemma_parts(r, scripts, texts, control::ftplugin_path(fts[i], data), data);
        }
    }
}

proof fn lemma_pair(needed: bool, name: Seq<char>, module: Seq<char>, rendered: control::Rendered)
    ensures
        needed ==> brings(
            control::pair_if(needed, name, module, rendered),
            control::plugin_path(rendered.setup@),
            rendered.setup@,
        ),
        needed && path::parse_text(module) != path::parse_text(control::plugin_path(rendered.setup@))
            ==> brings(
            control::pair_if(needed, name, module, rendered),
            module,
            rendered.runtime@,
        ),
{
    if needed {
        let list = control::pair_if(needed, name, module, rendered);
        assert(has_data(list[0], control::plugin_path(rendered.setup@), rendered.setup@));
        if path::parse_text(module) != path::parse_text(control::plugin_path(rendered.setup@)) {
            assert(has_data(list[0], module, rendered.runtime@));
        }
    }
}

/// The modules that the waiting files call are brought, unless a file of the same path is.
pub proof fn law_modules_brought(r: LazyRegistration, scripts: Seq<Seq<char>>, texts: ControlTexts)
    ensures
        ({
            let list = control::control(r, scripts, texts);
            &&& r.event2pkgid.keys().len() > 0 && path::parse_text("lua/_rsplug/on_event.lua"@)
                != path::parse_text(control::plugin_path(texts.on_event.setup@)) ==> brings(
                list,
                "lua/_rsplug/on_event.lua"@,
                texts.on_event.runtime@,
            )
            &&& r.func2pkgid.keys().len() > 0 && path::parse_text("lua/_rsplug/on_func.lua"@)
                != path::parse_text(control::plugin_path(texts.on_func.setup@)) ==> brings(
                list,
                "lua/_rsplug/on_func.lua"@,
                texts.on_func.runtime@,
            )
            &&& r.cmd2pkgid.keys().len() > 0 && path::parse_text("lua/_rsplug/on_cmd.lua"@)
                != path::parse_text(control::plugin_path(texts.on_cmd.setup@)) ==> brings(
                list,
                "lua/_rsplug/on_cmd.lua"@,
                texts.on_cmd.runtime@,
            )
            &&& r.luam2pkgid.keys().len() > 0 && path::parse_text("lua/_rsplug/on_lua.lua"@)
                != path::parse_text(control::plugin_path(texts.on_lua.setup@)) ==> brings(
                list,
                "lua/_rsplug/on_lua.lua"@,
                texts.on_lua.runtime@,
            )
            &&& path::parse_text("lua/_rsplug/init.lua"@) != path::parse_text(
                "plugin/lua_start.lua"@,
            ) ==> brings(list, "lua/_rsplug/init.lua"@, texts.init@)
        }),
{
    lemma_pair(
        r.event2pkgid.keys().len() > 0,
        "_rsplug:on_event"@,
        "lua/_rsplug/on_event.lua"@,
        texts.on_event,
    );
    lemma_pair(
        r.func2pkgid.keys().len() > 0,
        "_rsplug:on_func"@,
        "lua/_rsplug/on_func.lua"@,
        texts.on_func,
    );
    lemma_pair(
        r.cmd2pkgid.keys().len() > 0,
        "_rsplug:on_cmd"@,
        "lua/_rsplug/on_cmd.lua"@,
        texts.on_cmd,
    );
    lemma_pair(
        r.luam2pkgid.keys().len() > 0,
        "_rsplug:on_lua"@,
        "lua/_rsplug/on_lua.lua"@,
        texts.on_lua,
    );
    lemma_parts(r, scripts, texts, "lua/_rsplug/on_event.lua"@, texts.on_event.runtime@);
    lemma_parts(r, scripts, texts, "lua/_rsplug/on_func.lua"@, texts.on_func.runtime@);
    lemma_parts(r, scripts, texts, "lua/_rsplug/on_cmd.lua"@, texts.on_cmd.runtime@);
    lemma_parts(r, scripts, texts, "lua/_rsplug/on_lua.lua"@, texts.on_lua.runtime@);
    lemma_parts(r, scripts, texts, "lua/_rsplug/init.lua"@, texts.init@);
    let init = seq![control::init_plugin(texts.init@, scripts)];
    if path::parse_text("lua/_rsplug/init.lua"@) != path::parse_text("plugin/lua_start.lua"@) {
        assert(has_data(init[0], "lua/_rsplug/init.lua"@, texts.init@));
    }
}

/// A generated file may be replaced by another, and its package is loaded at startup, after all
/// others, as a registration.
pub proof fn law_generated(p: Seq<char>, data: Seq<u8>)
    ensures
        ({
            let plugin = control::instant(p, data);
            &&& plugin.lazy is Start && plugin.is_lazy_registration && !plugin.dotgit
            &&& plugin.order == usize::MAX
            &&& plugin.files.dom() == set![path::parse_text(p)]
            &&& plugin.files[path::parse_text(p)].merge_type == MergeType::Overwrite
            &&& has_data(plugin, p, data)
        }),
{
    assert(control::instant(p, data).files.dom() =~= set![path::parse_text(p)]);
}

/// The text holds the piece.
pub open spec fn holds(whole: Seq<char>, piece: Seq<char>) -> bool {
    exists|head: Seq<char>, tail: Seq<char>| whole == #[trigger] (head + piece + tail)
}

pub(crate) proof fn lemma_holds(head: Seq<char>, whole: Seq<char>, tail: Seq<char>, piece: Seq<char>)
    requires
        holds(whole, piece),
    ensures
        holds(head + whole + tail, piece),
        holds(head + whole, piece),
        holds(whole + tail, piece),
{
    let (a, b) = choose|a: Seq<char>, b: Seq<char>| whole == #[trigger] (a + piece + b);
    assert(head + whole + tail =~= (head + a) + piece + (b + tail));
    assert(head + whole =~= (head + a) + piece + b);
    assert(whole + tail =~= a + piece + (b + tail));
}

pub(crate) proof fn lemma_self(piece: Seq<char>)
    ensures
        holds(piece, piece),
{
    let none = Seq::<char>::empty();
    assert(piece =~= none + piece + none);
}

/// Every startup script stands in the file that runs them, in a function of its own.
pub proof fn law_scripts_run(scripts: Seq<Seq<char>>, i: int)
    requires
        0 <= i < scripts.len(),
    ensures
        holds(control::lua_start_text(scripts), "(function()\n"@ + scripts[i] + "\nend)();\n"@),
{
    lemma_wrapped(scripts, i);
    let piece = "(function()\n"@ + scripts[i] + "\nend)();\n"@;
    lemma_holds(
        "-- Auto generated by rsplug\n"@,
        control::wrapped_scripts(scripts),
        Seq::empty(),
        piece,
    );
}

proof fn lemma_wrapped(scripts: Seq<Seq<char>>, i: int)
    requires
        0 <= i < scripts.len(),
    ensures
        holds(control::wrapped_scripts(scripts), "(function()\n"@ + scripts[i] + "\nend)();\n"@),
    decreases scripts.len(),
{
    let front = scripts.drop_last();
    let piece = "(function()\n"@ + scripts[i] + "\nend)();\n"@;
    if i < front.len() {
        assert(front[i] == scripts[i]);
        lemma_wrapped(front, i);
        lemma_holds(
            Seq::empty(),
            control::wrapped_scripts(front),
            control::wrapped_script(scripts.last()),
            piece,
        );
    } else {
        lemma_self(piece);
        lemma_holds(control::wrapped_scripts(front), piece, Seq::empty(), piece);
    }
}

/// The module of a hook runs each of its scripts on its side of the load: those before it ahead of
/// the function for those after it, and those after it behind.
pub proof fn law_hooks_run(before: Seq<Seq<char>>, after: Seq<Seq<char>>, i: int)
    ensures
        ({
            let text = templates::hooks_text(before, after);
            &&& 0 <= i < before.len() ==> exists|a: Seq<char>, b: Seq<char>|
                text == #[trigger] (a + "  end,\n  after = function()\n"@ + b) && holds(
                    a,
                    "(function()\n"@ + before[i] + "\nend)();\n"@,
                )
            &&& 0 <= i < after.len() ==> exists|a: Seq<char>, b: Seq<char>|
                text == #[trigger] (a + "  end,\n  after = function()\n"@ + b) && holds(
                    b,
                    "(function()\n"@ + after[i] + "\nend)();\n"@,
                )
        }),
{
    let text = templates::hooks_text(before, after);
    let a = templates::HOOKS_HEAD@ + control::wrapped_scripts(before);
    let b = control::wrapped_scripts(after) + templates::HOOKS_TAIL@;
    assert(text =~= a + "  end,\n  after = function()\n"@ + b);
    if 0 <= i < before.len() {
        lemma_wrapped(before, i);
        lemma_holds(
            templates::HOOKS_HEAD@,
            control::wrapped_scripts(before),
            Seq::empty(),
            "(function()\n"@ + before[i] + "\nend)();\n"@,
        );
    }
    if 0 <= i < after.len() {
        lemma_wrapped(after, i);
        lemma_holds(
            Seq::empty(),
            control::wrapped_scripts(after),
            templates::HOOKS_TAIL@,
            "(function()\n"@ + after[i] + "\nend)();\n"@,
        );
    }
}

/// Every member of a list stands in the list of literals, as a literal.
pub proof fn law_list_holds(list: Seq<Seq<char>>, i: int)
    requires
        0 <= i < list.len(),
    ensures
        holds(templates::list_text(list), lazy_registration::lua_literal(list[i]) + ","@),
{
    lemma_literals(list, i);
    let piece = lazy_registration::lua_literal(list[i]) + ","@;
    lemma_holds("{"@, templates::literals(list), "}"@, piece);
}

proof fn lemma_literals(list: Seq<Seq<char>>, i: int)
    requires
        0 <= i < list.len(),
    ensures
        holds(templates::literals(list), lazy_registration::lua_literal(list[i]) + ","@),
    decreases list.len(),
{
    let front = list.drop_last();
    let piece = lazy_registration::lua_literal(list[i]) + ","@;
    let last = lazy_registration::lua_literal(list.last()) + ","@;
    assert(templates::literals(list) =~= templates::literals(front) + last);
    if i < front.len() {
        assert(front[i] == list[i]);
        lemma_literals(front, i);
        lemma_holds(Seq::empty(), templates::literals(front), last, piece);
    } else {
        lemma_self(piece);
        lemma_holds(templates::literals(front), piece, Seq::empty(), piece);
    }
}

/// Every record of a table of lists stands in it, with its key and its list.
pub proof fn law_table_holds(list: Seq<(Seq<char>, Seq<Seq<char>>)>, i: int)
    requires
        0 <= i < list.len(),
    ensures
        holds(
            templates::list_table(list),
            "  ["@ + lazy_registration::lua_literal(list[i].0) + "] = "@ + templates::list_text(
                list[i].1,
            ) + ",\n"@,
        ),
{
    lemma_records(list, i);
    let piece = "  ["@ + lazy_registration::lua_literal(list[i].0) + "] = "@ + templates::list_text(
        list[i].1,
    ) + ",\n"@;
    lemma_holds("{\n"@, templates::list_records(list), "}"@, piece);
}

proof fn lemma_records(list: Seq<(Seq<char>, Seq<Seq<char>>)>, i: int)
    requires
        0 <= i < list.len(),
    ensures
        holds(
            templates::list_records(list),
            "  ["@ + lazy_registration::lua_literal(list[i].0) + "] = "@ + templates::list_text(
                list[i].1,
            ) + ",\n"@,
        ),
    decreases list.len(),
{
    let front = list.drop_last();
    let piece = "  ["@ + lazy_registration::lua_literal(list[i].0) + "] = "@ + templates::list_text(
        list[i].1,
    ) + ",\n"@;
    let last = "  ["@ + lazy_registration::lua_literal(list.last().0) + "] = "@
        + templates::list_text(list.last().1) + ",\n"@;
    assert(templates::list_records(list) =~= templates::list_records(front) + last);
    if i < front.len() {
        assert(front[i] == list[i]);
        lemma_records(front, i);
        lemma_holds(Seq::empty(), templates::list_records(front), last, piece);
    } else {
        lemma_self(piece);
        lemma_holds(templates::list_records(front), piece, Seq::empty(), piece);
    }
}

/// Every record of a table of names stands in it.
pub proof fn law_names_hold(list: Seq<(Seq<char>, Seq<char>)>, i: int)
    requires
        0 <= i < list.len(),
    ensures
        holds(
            templates::name_table(list),
            "  ["@ + lazy_registration::lua_literal(list[i].0) + "] = "@
                + lazy_registration::lua_literal(list[i].1) + ",\n"@,
        ),
{
    lemma_names(list, i);
    let piece = "  ["@ + lazy_registration::lua_literal(list[i].0) + "] = "@
        + lazy_registration::lua_literal(list[i].1) + ",\n"@;
    lemma_holds("{\n"@, templates::name_records(list), "}"@, piece);
}

proof fn lemma_names(list: Seq<(Seq<char>, Seq<char>)>, i: int)
    requires
        0 <= i < list.len(),
    ensures
        holds(
            templates::name_records(list),
            "  ["@ + lazy_registration::lua_literal(list[i].0) + "] = "@
                + lazy_registration::lua_literal(list[i].1) + ",\n"@,
        ),
    decreases list.len(),
{
    let front = list.drop_last();
    let piece = "  ["@ + lazy_registration::lua_literal(list[i].0) + "] = "@
        + lazy_registration::lua_literal(list[i].1) + ",\n"@;
    let last = "  ["@ + lazy_registration::lua_literal(list.last().0) + "] = "@
        + lazy_registration::lua_literal(list.last().1) + ",\n"@;
    assert(templates::name_records(list) =~= templates::name_records(front) + last);
    if i < front.len() {
        assert(front[i] == list[i]);
        lemma_names(front, i);
        lemma_holds(Seq::empty(), templates::name_records(front), last, piece);
    } else {
        lemma_self(piece);
        lemma_holds(templates::name_records(front), piece, Seq::empty(), piece);
    }
}

} // verus!
