//! What the generated files tell.

use crate::lazy_registration;
use crate::lazy_registration::control;
use crate::lazy_registration::control::ControlTexts;
use crate::lazy_registration::control_laws;
use crate::lazy_registration::inputs;
use crate::lazy_registration::inputs::TemplateInputs;
use crate::lazy_registration::templates;
use crate::lazy_registration::LazyRegistration;
use crate::order::{Key, SortedMap};
use crate::text;
use vstd::prelude::*;

verus! {

/// The file holds the piece.
pub open spec fn tells(data: Seq<u8>, piece: Seq<char>) -> bool {
    exists|whole: Seq<char>|
        data == #[trigger] vstd::utf8::encode_utf8(whole) && control_laws::holds(whole, piece)
}

/// A name in a list.
pub open spec fn listed(name: Seq<char>) -> Seq<char> {
    lazy_registration::lua_literal(name) + ","@
}

/// A line of a table that gives a name its packages.
pub open spec fn given(name: Seq<char>, ids: Seq<Seq<char>>) -> Seq<char> {
    "  ["@ + lazy_registration::lua_literal(name) + "] = "@ + templates::list_text(ids) + ",\n"@
}

proof fn lemma_tells(head: Seq<char>, whole: Seq<char>, tail: Seq<char>, piece: Seq<char>)
    requires
        control_laws::holds(whole, piece),
    ensures
        tells(vstd::utf8::encode_utf8(head + whole + tail), piece),
{
    control_laws::lemma_holds(head, whole, tail, piece);
}

proof fn lemma_five(a: Seq<char>, b: Seq<char>, c: Seq<char>, d: Seq<char>, e: Seq<char>)
    ensures
        a + b + c + d + e == a + b + (c + d + e),
        a + b + c + d + e == (a + b + c) + d + e,
{
    assert(a + b + c + d + e =~= a + b + (c + d + e));
}

proof fn lemma_seven(
    a: Seq<char>,
    b: Seq<char>,
    c: Seq<char>,
    d: Seq<char>,
    e: Seq<char>,
    f: Seq<char>,
    g: Seq<char>,
)
    ensures
        a + b + c + d + e + f + g == a + b + (c + d + e + f + g),
        a + b + c + d + e + f + g == (a + b) + (c + d) + (e + f + g),
        a + b + c + d + e + f + g == (a + b + c + d + e) + f + g,
{
    lemma_five(a + b, c, d, e, f);
    assert((a + b) + (c + d + e + f) + g =~= (a + b) + (c + d + e + f + g));
    assert((a + b) + c + d =~= (a + b) + (c + d));
    lemma_five((a + b), (c + d), e, f, g);
}

proof fn lemma_map_tells(
    head: Seq<char>,
    m: SortedMap<String, Vec<String>>,
    tail: Seq<char>,
    i: int,
)
    requires
        0 <= i < m.keys().len(),
    ensures
        tells(
            vstd::utf8::encode_utf8(templates::around_map(head, m, tail)),
            given(m.keys()[i], text::strings(m.values()[i]@)),
        ),
{
    let list = templates::records_of(m);
    control_laws::law_table_holds(list, i);
    lemma_tells(
        head,
        templates::list_table(list),
        tail,
        given(m.keys()[i], text::strings(m.values()[i]@)),
    );
}

/// The file of events waits for every event that is registered, and its module gives each the
/// packages that it is registered with.
pub proof fn law_events_are_told(
    texts: ControlTexts,
    r: LazyRegistration,
    t: TemplateInputs,
    help: Seq<u8>,
    i: int,
)
    requires
        templates::is_rendered(texts, r, t, help),
        0 <= i < r.event2pkgid.keys().len(),
    ensures
        tells(texts.on_event.setup@, listed(r.event2pkgid.keys()[i])),
        tells(
            texts.on_event.runtime@,
            given(r.event2pkgid.keys()[i], text::strings(r.event2pkgid.values()[i]@)),
        ),
{
    let names = r.event2pkgid.keys();
    control_laws::law_list_holds(names, i);
    lemma_tells(
        templates::EVENT_SETUP_HEAD@,
        templates::list_text(names),
        templates::EVENT_SETUP_TAIL@,
        listed(names[i]),
    );
    lemma_map_tells(templates::EVENT_HEAD@, r.event2pkgid, templates::EVENT_TAIL@, i);
}

/// The file of commands makes every command that is registered, and its module gives each the
/// packages that it is registered with.
pub proof fn law_commands_are_told(
    texts: ControlTexts,
    r: LazyRegistration,
    t: TemplateInputs,
    help: Seq<u8>,
    i: int,
)
    requires
        templates::is_rendered(texts, r, t, help),
        0 <= i < r.cmd2pkgid.keys().len(),
    ensures
        tells(texts.on_cmd.setup@, listed(r.cmd2pkgid.keys()[i])),
        tells(
            texts.on_cmd.runtime@,
            given(r.cmd2pkgid.keys()[i], text::strings(r.cmd2pkgid.values()[i]@)),
        ),
{
    let names = r.cmd2pkgid.keys();
    control_laws::law_list_holds(names, i);
    lemma_tells(
        templates::CMD_SETUP_HEAD@,
        templates::list_text(names),
        templates::CMD_SETUP_TAIL@,
        listed(names[i]),
    );
    lemma_map_tells(templates::CMD_HEAD@, r.cmd2pkgid, templates::CMD_TAIL@, i);
}

proof fn lemma_handlers(list: Seq<Seq<char>>, i: int)
    requires
        0 <= i < list.len(),
    ensures
        control_laws::holds(
            templates::handler_lines(list),
            "autoload_handler("@ + lazy_registration::lua_literal(list[i]) + ")\n"@,
        ),
    decreases list.len(),
{
    let front = list.drop_last();
    let piece = "autoload_handler("@ + lazy_registration::lua_literal(list[i]) + ")\n"@;
    let last = "autoload_handler("@ + lazy_registration::lua_literal(list.last()) + ")\n"@;
    assert(templates::handler_lines(list) =~= templates::handler_lines(front) + last);
    if i < front.len() {
        assert(front[i] == list[i]);
        lemma_handlers(front, i);
        control_laws::lemma_holds(Seq::empty(), templates::handler_lines(front), last, piece);
    } else {
        control_laws::lemma_self(piece);
        control_laws::lemma_holds(templates::handler_lines(front), piece, Seq::empty(), piece);
    }
}

/// The file of functions waits for every function that is registered, and its module gives each the
/// packages that it is registered with.
pub proof fn law_functions_are_told(
    texts: ControlTexts,
    r: LazyRegistration,
    t: TemplateInputs,
    help: Seq<u8>,
    i: int,
)
    requires
        templates::is_rendered(texts, r, t, help),
        0 <= i < r.func2pkgid.keys().len(),
    ensures
        tells(
            texts.on_func.setup@,
            "autoload_handler("@ + lazy_registration::lua_literal(r.func2pkgid.keys()[i]) + ")\n"@,
        ),
        tells(
            texts.on_func.runtime@,
            given(r.func2pkgid.keys()[i], text::strings(r.func2pkgid.values()[i]@)),
        ),
{
    let names = r.func2pkgid.keys();
    let lines = templates::handler_lines(names);
    let piece = "autoload_handler("@ + lazy_registration::lua_literal(names[i]) + ")\n"@;
    lemma_handlers(names, i);
    lemma_tells(templates::FUNC_SETUP_HEAD@, lines, Seq::empty(), piece);
    assert(templates::FUNC_SETUP_HEAD@ + lines + Seq::<char>::empty() =~= templates::func_setup_text(
        names,
    ));
    lemma_map_tells(templates::FUNC_HEAD@, r.func2pkgid, templates::FUNC_TAIL@, i);
}

/// The module for modules gives each module that is registered its packages, and each package its
/// modules.
pub proof fn law_modules_are_told(
    texts: ControlTexts,
    r: LazyRegistration,
    t: TemplateInputs,
    help: Seq<u8>,
    i: int,
)
    requires
        templates::is_rendered(texts, r, t, help),
    ensures
        0 <= i < r.luam2pkgid.keys().len() ==> tells(
            texts.on_lua.runtime@,
            given(r.luam2pkgid.keys()[i], text::strings(r.luam2pkgid.values()[i]@)),
        ),
        0 <= i < t.pkgid2luam.keys().len() ==> tells(
            texts.on_lua.runtime@,
            given(t.pkgid2luam.keys()[i], t.pkgid2luam.values()[i].members()),
        ),
{
    let packages = templates::list_table(templates::records_of(r.luam2pkgid));
    let modules = templates::list_table(templates::set_records_of(t.pkgid2luam));
    lemma_five(
        templates::LUA_HEAD@,
        packages,
        templates::LUA_MIDDLE@,
        modules,
        templates::LUA_TAIL@,
    );
    if 0 <= i < r.luam2pkgid.keys().len() {
        control_laws::law_table_holds(templates::records_of(r.luam2pkgid), i);
        let tail = templates::LUA_MIDDLE@ + modules + templates::LUA_TAIL@;
        lemma_tells(
            templates::LUA_HEAD@,
            packages,
            tail,
            given(r.luam2pkgid.keys()[i], text::strings(r.luam2pkgid.values()[i]@)),
        );
    }
    if 0 <= i < t.pkgid2luam.keys().len() {
        control_laws::law_table_holds(templates::set_records_of(t.pkgid2luam), i);
        let head = templates::LUA_HEAD@ + packages + templates::LUA_MIDDLE@;
        lemma_tells(
            head,
            modules,
            templates::LUA_TAIL@,
            given(t.pkgid2luam.keys()[i], t.pkgid2luam.values()[i].members()),
        );
    }
}

proof fn lemma_ft_file(name: Seq<char>, ids: Seq<char>)
    ensures
        templates::FTPLUGIN_HEAD@ + (name + ", "@ + ids + ")"@) + "\n"@ == templates::FTPLUGIN_HEAD@
            + name + templates::FTPLUGIN_MIDDLE@ + ids + templates::FTPLUGIN_TAIL@,
{
    reveal_strlit(")");
    reveal_strlit("\n");
    reveal_strlit(")\n");
    let head = templates::FTPLUGIN_HEAD@;
    assert(")\n"@ =~= ")"@ + "\n"@);
    assert(head + (name + ", "@ + ids + ")"@) + "\n"@ =~= head + name + ", "@ + ids + ")\n"@);
}

/// Every file type that is registered has a file, which loads the packages that it is registered
/// with.
pub proof fn law_file_types_are_told(
    texts: ControlTexts,
    r: LazyRegistration,
    t: TemplateInputs,
    help: Seq<u8>,
    i: int,
)
    requires
        templates::is_rendered(texts, r, t, help),
        0 <= i < r.ft2pkgid.keys().len(),
    ensures
        texts.ftplugins@.len() == r.ft2pkgid.keys().len(),
        tells(
            texts.ftplugins@[i]@,
            lazy_registration::lua_literal(r.ft2pkgid.keys()[i]) + ", "@ + templates::list_text(
                text::strings(r.ft2pkgid.values()[i]@),
            ) + ")"@,
        ),
{
    let ft = r.ft2pkgid.keys()[i];
    let ids = text::strings(r.ft2pkgid.values()[i]@);
    let piece = lazy_registration::lua_literal(ft) + ", "@ + templates::list_text(ids) + ")"@;
    control_laws::lemma_self(piece);
    lemma_tells(templates::FTPLUGIN_HEAD@, piece, "\n"@, piece);
    lemma_ft_file(lazy_registration::lua_literal(ft), templates::list_text(ids));
}

/// The file of mappings prepares every mode that has any, and the module of a mode gives each of its
/// mappings the packages that it is registered with.
pub proof fn law_mappings_are_told(
    texts: ControlTexts,
    r: LazyRegistration,
    t: TemplateInputs,
    help: Seq<u8>,
    i: int,
    k: int,
)
    requires
        templates::is_rendered(texts, r, t, help),
        0 <= i < r.keypattern2pkgid.keys().len(),
    ensures
        tells(
            texts.on_map.setup@,
            listed(
                match r.keypattern2pkgid.keys()[i] {
                    Some(c) => seq![c],
                    None => Seq::empty(),
                },
            ),
        ),
        texts.modes@.len() == r.keypattern2pkgid.keys().len(),
        ({
            let m = r.keypattern2pkgid.values()[i];
            0 <= k < m.keys().len() ==> tells(
                texts.modes@[i]@,
                given(m.keys()[k], text::strings(m.values()[k]@)),
            )
        }),
{
    let modes = templates::mode_texts(r.keypattern2pkgid.keys());
    control_laws::law_list_holds(modes, i);
    lemma_tells(
        templates::MAP_SETUP_HEAD@,
        templates::list_text(modes),
        templates::MAP_SETUP_TAIL@,
        listed(modes[i]),
    );
    let m = r.keypattern2pkgid.values()[i];
    if 0 <= k < m.keys().len() {
        lemma_map_tells(templates::MODE_HEAD@, m, templates::LINE_END@, k);
    }
}

/// The loader knows the module of every hook, loads the startup packages in their order, and knows
/// what is loaded with each package.
pub proof fn law_loader_is_told(
    texts: ControlTexts,
    r: LazyRegistration,
    t: TemplateInputs,
    help: Seq<u8>,
    i: int,
)
    requires
        templates::is_rendered(texts, r, t, help),
    ensures
        0 <= i < t.hooks@.len() ==> tells(
            texts.init@,
            "  ["@ + lazy_registration::lua_literal(t.hooks@[i].pkgid@) + "] = "@
                + lazy_registration::lua_literal(control::hook_module(texts.hooks@[i]@)) + ",\n"@,
        ),
        tells(
            texts.init@,
            "\nlocal startup_plugins = "@ + templates::list_text(text::strings(t.startup_plugins@)),
        ),
        0 <= i < t.source2pkgid@.len() ==> tells(
            texts.init@,
            given(inputs::followers(t.source2pkgid@)[i].0, inputs::followers(t.source2pkgid@)[i].1),
        ),
{
    let modules = control::modules_of(t.hooks@, texts.hooks@);
    let hooks = templates::name_table(modules);
    let startup = templates::list_text(text::strings(t.startup_plugins@));
    let followers = templates::list_table(inputs::followers(t.source2pkgid@));
    lemma_seven(
        templates::PACKADD_HEAD@,
        hooks,
        templates::PACKADD_STARTUP@,
        startup,
        templates::PACKADD_FOLLOWERS@,
        followers,
        templates::PACKADD_TAIL@,
    );
    if 0 <= i < t.hooks@.len() {
        control_laws::law_names_hold(modules, i);
        let tail = templates::PACKADD_STARTUP@ + startup + templates::PACKADD_FOLLOWERS@ + followers
            + templates::PACKADD_TAIL@;
        lemma_tells(
            templates::PACKADD_HEAD@,
            hooks,
            tail,
            "  ["@ + lazy_registration::lua_literal(t.hooks@[i].pkgid@) + "] = "@
                + lazy_registration::lua_literal(control::hook_module(texts.hooks@[i]@)) + ",\n"@,
        );
    }
    let piece = "\nlocal startup_plugins = "@ + startup;
    control_laws::lemma_self(piece);
    let tail = templates::PACKADD_FOLLOWERS@ + followers + templates::PACKADD_TAIL@;
    lemma_tells(templates::PACKADD_HEAD@ + hooks, piece, tail, piece);
    if 0 <= i < t.source2pkgid@.len() {
        let list = inputs::followers(t.source2pkgid@);
        control_laws::law_table_holds(list, i);
        let head = templates::PACKADD_HEAD@ + hooks + templates::PACKADD_STARTUP@ + startup
            + templates::PACKADD_FOLLOWERS@;
        lemma_tells(head, followers, templates::PACKADD_TAIL@, given(list[i].0, list[i].1));
    }
}

} // verus!
