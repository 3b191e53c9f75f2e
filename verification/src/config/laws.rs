//! What names and triggers of plugins say.

use crate::config;
use crate::config::{Config, LazyTypeDeserializer, PluginConfig, RepoSource};
use crate::config::Scripts;
use crate::lazy_type;
use crate::lazy_type::Event;
use crate::order;
use crate::text;
use vstd::prelude::*;

verus! {

/// A trailing `.git` or separator of a URL changes nothing about the directory that cloning it
/// creates.
pub proof fn law_trailing_git(url: Seq<char>)
    ensures
        config::without_git_suffix(url + ".git"@) == config::without_git_suffix(url),
        config::without_git_suffix(url.push('/')) == config::without_git_suffix(url),
{
    reveal_strlit(".git");
    let suffix = seq!['.', 'g', 'i', 't'];
    let long = url + ".git"@;
    assert(long.skip(long.len() - 4) =~= suffix);
    assert(long.take(long.len() - 4) =~= url);
    let slashed = url.push('/');
    assert(slashed.drop_last() =~= url);
    assert(!config::ends_with(slashed, suffix)) by {
        if config::ends_with(slashed, suffix) {
            assert(slashed.skip(slashed.len() - 4)[3] == slashed.last());
        }
    }
}

proof fn lemma_last_segment(s: Seq<char>, name: Seq<char>)
    requires
        forall|i: int| 0 <= i < name.len() ==> #[trigger] name[i] != '/',
    ensures
        config::last_segment(s.push('/') + name) == name,
        config::last_segment(name) == name,
    decreases name.len(),
{
    if name.len() == 0 {
        assert(s.push('/') + name =~= s.push('/'));
        assert(name =~= Seq::<char>::empty());
    } else {
        let front = name.drop_last();
        assert forall|i: int| 0 <= i < front.len() implies #[trigger] front[i] != '/' by {
            assert(name[i] == front[i]);
        }
        lemma_last_segment(s, front);
        assert(name[name.len() - 1] != '/');
        assert((s.push('/') + name).drop_last() =~= s.push('/') + front);
        assert((s.push('/') + name).last() == name.last());
        assert(front.push(name.last()) =~= name);
    }
}

/// Cloning a URL creates a directory of the name behind its last separator.
pub proof fn law_repo_name(above: Seq<char>, name: Seq<char>)
    requires
        name.len() > 0,
        forall|i: int| 0 <= i < name.len() ==> #[trigger] name[i] != '/',
        name.len() < 4 || name.skip(name.len() - 4) != ".git"@,
    ensures
        config::last_segment(config::without_git_suffix(above.push('/') + name)) == name,
        config::last_segment(config::without_git_suffix(above.push('/') + name + ".git"@)) == name,
        config::last_segment(config::without_git_suffix((above.push('/') + name).push('/'))) == name,
{
    reveal_strlit(".git");
    let url = above.push('/') + name;
    let suffix = seq!['.', 'g', 'i', 't'];
    lemma_last_segment(above, name);
    law_trailing_git(url);
    assert(name[name.len() - 1] != '/');
    assert(url.last() == name.last());
    assert(!config::ends_with(url, suffix)) by {
        if config::ends_with(url, suffix) {
            let end = url.skip(url.len() - 4);
            if name.len() >= 4 {
                assert(end =~= name.skip(name.len() - 4));
                assert(suffix =~= ".git"@);
            } else {
                let at = 3 - name.len();
                assert(end[at] == '/');
                assert(suffix[at] != '/');
            }
        }
    }
}

/// A plugin goes by its own name if it has one, else by that of its repository; without either it
/// has none.
pub proof fn law_public_name(plugin: PluginConfig)
    ensures
        plugin.custom_name matches Some(name) ==> plugin.dep_name_text() == Some(name@),
        plugin.custom_name is None ==> {
            &&& plugin.cache.repo matches Some(RepoSource::GitHub { repo, .. })
                ==> plugin.dep_name_text() == Some(repo@)
            &&& plugin.cache.repo matches Some(RepoSource::Git { url, .. }) ==> plugin.dep_name_text()
                == Some(config::last_segment(config::without_git_suffix(url@)))
            &&& plugin.cache.repo is None ==> plugin.dep_name_text() is None
        },
        plugin.dep_name_text() is Some ==> plugin.internal_id_text() == plugin.dep_name_text()->0,
{
}

/// Configurations one after the other hold the entries of the first and then those of the second,
/// and one alone holds its own.
pub proof fn law_configurations_add_up(a: Seq<Config>, b: Seq<Config>, one: Config)
    ensures
        config::all_plugins(a + b) == config::all_plugins(a) + config::all_plugins(b),
        config::all_plugins(seq![one]) == one.plugins@,
    decreases b.len(),
{
    let single = seq![one];
    assert(single.drop_last() =~= Seq::<Config>::empty());
    assert(config::all_plugins(single.drop_last()) =~= Seq::<PluginConfig>::empty());
    assert(config::all_plugins(single) =~= one.plugins@);
    if b.len() == 0 {
        assert(a + b =~= a);
        assert(config::all_plugins(a) + config::all_plugins(b) =~= config::all_plugins(a));
    } else {
        law_configurations_add_up(a, b.drop_last(), one);
        assert((a + b).drop_last() =~= a + b.drop_last());
        assert((a + b).last() == b.last());
        assert(config::all_plugins(a + b) =~= config::all_plugins(a) + config::all_plugins(b));
    }
}

/// An entry has triggers exactly if some event but mappings without a pattern is among them.
pub proof fn law_lazy_has_triggers(val: LazyTypeDeserializer)
    ensures
        val.lazy() <==> exists|e: Event| #[trigger]
            val.triggers(e) && (e matches Event::OnMap(p) ==> p.len() > 0),
{
    if val.lazy() {
        if val.on_event@.len() > 0 {
            let s = text::strings(val.on_event@)[0];
            assert(val.triggers(Event::Autocmd(s)));
        } else if val.on_cmd@.len() > 0 {
            let s = text::strings(val.on_cmd@)[0];
            assert(val.triggers(Event::UserCmd(s)));
        } else if val.on_ft@.len() > 0 {
            let s = text::strings(val.on_ft@)[0];
            assert(val.triggers(Event::FileType(s)));
        } else if val.on_func@.len() > 0 {
            let s = text::strings(val.on_func@)[0];
            assert(val.triggers(Event::VimFunc(s)));
        } else if val.on_source@.len() > 0 {
            let s = text::strings(val.on_source@)[0];
            assert(val.triggers(Event::OnSource(s)));
        } else {
            assert(val.triggers(Event::OnMap(lazy_type::pattern_model(val.on_map))));
        }
    }
}

/// Every word of the configuration is a trigger of its own sort, and there is no other.
pub proof fn law_words_are_triggers(val: LazyTypeDeserializer, s: Seq<char>)
    ensures
        val.triggers(Event::Autocmd(s)) <==> text::strings(val.on_event@).contains(s),
        val.triggers(Event::UserCmd(s)) <==> text::strings(val.on_cmd@).contains(s),
        val.triggers(Event::FileType(s)) <==> text::strings(val.on_ft@).contains(s),
        val.triggers(Event::VimFunc(s)) <==> text::strings(val.on_func@).contains(s),
        val.triggers(Event::OnSource(s)) <==> text::strings(val.on_source@).contains(s),
        val.triggers(Event::OnMap(lazy_type::pattern_model(val.on_map))),
        !val.triggers(Event::LuaModule(s)),
{
}

proof fn lemma_repeated(patterns: Seq<Seq<char>>, modes: Seq<char>, mode: char, p: Seq<char>)
    ensures
        config::repeated(patterns, modes, mode).contains(p) <==> modes.contains(mode)
            && patterns.contains(p),
    decreases modes.len(),
{
    if modes.len() > 0 {
        let front = modes.drop_last();
        let before = config::repeated(patterns, front, mode);
        lemma_repeated(patterns, front, mode, p);
        assert(modes =~= front.push(modes.last()));
        order::lemma_contains_push(front, modes.last(), mode);
        lemma_contains_add(before, patterns, p);
    }
}

proof fn lemma_contains_add<T>(a: Seq<T>, b: Seq<T>, x: T)
    ensures
        (a + b).contains(x) <==> a.contains(x) || b.contains(x),
{
    if (a + b).contains(x) {
        let i = (a + b).index_of(x);
        if i < a.len() {
            assert(a[i] == x);
        } else {
            assert(b[i - a.len()] == x);
        }
    }
    if a.contains(x) {
        let i = a.index_of(x);
        assert((a + b)[i] == x);
    }
    if b.contains(x) {
        let i = b.index_of(x);
        assert((a + b)[a.len() + i] == x);
    }
}

/// A mode has a pattern exactly if an entry for this mode, alone or among others, has it.
pub proof fn law_patterns_of_mode(
    entries: Seq<(Seq<char>, Seq<Seq<char>>)>,
    mode: char,
    p: Seq<char>,
)
    ensures
        config::mode_patterns(entries, mode).contains(p) <==> exists|i: int|
            0 <= i < entries.len() && (#[trigger] entries[i]).0.contains(mode)
                && entries[i].1.contains(p),
    decreases entries.len(),
{
    if entries.len() > 0 {
        let front = entries.drop_last();
        let (modes, patterns) = entries.last();
        law_patterns_of_mode(front, mode, p);
        lemma_repeated(patterns, modes, mode, p);
        lemma_contains_add(
            config::mode_patterns(front, mode),
            config::repeated(patterns, modes, mode),
            p,
        );
        assert(entries[entries.len() - 1] == (modes, patterns));
        if exists|i: int|
            0 <= i < front.len() && (#[trigger] front[i]).0.contains(mode) && front[i].1.contains(p) {
            let i = choose|i: int|
                0 <= i < front.len() && (#[trigger] front[i]).0.contains(mode)
                    && front[i].1.contains(p);
            assert(entries[i] == front[i]);
        }
        if exists|i: int|
            0 <= i < entries.len() && (#[trigger] entries[i]).0.contains(mode)
                && entries[i].1.contains(p) {
            let i = choose|i: int|
                0 <= i < entries.len() && (#[trigger] entries[i]).0.contains(mode)
                    && entries[i].1.contains(p);
            if i < front.len() {
                assert(front[i] == entries[i]);
            }
        }
    }
}

/// Scripts that are put together are those of both, each at its time, whichever comes first.
pub proof fn law_scripts_of_both(all: Scripts, a: Scripts, b: Scripts, other: Scripts, s: Seq<char>)
    requires
        config::scripts_united(all, a, b),
        config::scripts_united(other, b, a),
    ensures
        a.lua_start.contains(s) || b.lua_start.contains(s) <==> all.lua_start.contains(s),
        a.lua_after.contains(s) || b.lua_after.contains(s) <==> all.lua_after.contains(s),
        a.lua_before.contains(s) || b.lua_before.contains(s) <==> all.lua_before.contains(s),
        all.lua_start.contains(s) <==> other.lua_start.contains(s),
        all.lua_after.contains(s) <==> other.lua_after.contains(s),
        all.lua_before.contains(s) <==> other.lua_before.contains(s),
{
}

} // verus!
