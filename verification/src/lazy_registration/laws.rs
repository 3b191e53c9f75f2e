//! What is registered is found again, and loads what it should.

use crate::config::Scripts;
use crate::lazy_registration;
use crate::lazy_registration::create;
use crate::lazy_registration::Registration;
use crate::lazy_type::{Event, Lazy};
use crate::order;
use vstd::prelude::*;

verus! {

/// The trigger loads the package.
pub open spec fn loads(m: Map<Seq<char>, Seq<Seq<char>>>, k: Seq<char>, id: Seq<char>) -> bool {
    m.contains_key(k) && m[k].contains(id)
}

/// The pattern of the mode loads the package.
pub open spec fn key_loads(
    m: Map<Option<char>, Map<Seq<char>, Seq<Seq<char>>>>,
    mode: Option<char>,
    k: Seq<char>,
    id: Seq<char>,
) -> bool {
    m.contains_key(mode) && loads(m[mode], k, id)
}

/// A package that is loaded lazily is registered under every trigger that it has, and under no
/// other; and nothing but this package is.
pub proof fn law_triggers_are_registered(
    id: Seq<char>,
    names: Seq<Seq<char>>,
    events: Seq<Event>,
    script: Scripts,
    order: int,
    k: Seq<char>,
    x: Seq<char>,
)
    ensures
        ({
            let r = create::created(id, names, Lazy::Opt(events), script, order);
            &&& loads(r.events, k, x) <==> x == id && events.contains(Event::Autocmd(k))
            &&& loads(r.cmds, k, x) <==> x == id && events.contains(Event::UserCmd(k))
            &&& loads(r.fts, k, x) <==> x == id && events.contains(Event::FileType(k))
            &&& loads(r.funcs, k, x) <==> x == id && events.contains(Event::VimFunc(k))
            &&& loads(r.luams, k, x) <==> x == id && events.contains(Event::LuaModule(k))
            &&& loads(r.sources, k, x) <==> x == id && events.contains(Event::OnSource(k))
        }),
{
    assert(seq![id][0] == id);
    assert(create::on_event()(k) == Event::Autocmd(k));
    assert(create::on_cmd()(k) == Event::UserCmd(k));
    assert(create::on_ft()(k) == Event::FileType(k));
    assert(create::on_func()(k) == Event::VimFunc(k));
    assert(create::on_luam()(k) == Event::LuaModule(k));
    assert(create::on_source()(k) == Event::OnSource(k));
}

/// A package that starts with the editor has no trigger.
pub proof fn law_start_has_no_trigger(
    id: Seq<char>,
    names: Seq<Seq<char>>,
    script: Scripts,
    order: int,
    mode: Option<char>,
    k: Seq<char>,
    x: Seq<char>,
)
    ensures
        ({
            let r = create::created(id, names, Lazy::Start, script, order);
            &&& !loads(r.events, k, x)
            &&& !loads(r.cmds, k, x)
            &&& !loads(r.fts, k, x)
            &&& !loads(r.funcs, k, x)
            &&& !loads(r.luams, k, x)
            &&& !loads(r.sources, k, x)
            &&& !key_loads(r.keys, mode, k, x)
        }),
{
}

/// A package is registered once with its scripts and its order, as one that starts or as one that
/// does not, and is found under each name of its plugins and no other.
pub proof fn law_scripts_are_registered(
    id: Seq<char>,
    names: Seq<Seq<char>>,
    lazy: Lazy,
    script: Scripts,
    order: int,
    name: Seq<char>,
)
    ensures
        ({
            let r = create::created(id, names, lazy, script, order);
            &&& r.scripts.len() == 1
            &&& r.scripts[0].pkgid == id && r.scripts[0].script == script && r.scripts[0].order
                == order
            &&& r.scripts[0].start <==> lazy is Start
            &&& r.targets.contains_key(name) <==> names.contains(name)
            &&& names.contains(name) ==> r.targets[name] == id
            &&& !lazy_registration::registers_nothing(r)
        }),
{
}

/// An event maps the pattern in the mode.
pub open spec fn maps(e: Event, mode: Option<char>, pattern: Seq<char>) -> bool {
    e matches Event::OnMap(modes) && exists|i: int|
        0 <= i < modes.len() && (#[trigger] modes[i]).0 == mode && modes[i].1.contains(pattern)
}

proof fn lemma_patterns(
    m: Map<Option<char>, Map<Seq<char>, Seq<Seq<char>>>>,
    mode: Option<char>,
    patterns: Seq<Seq<char>>,
    id: Seq<char>,
    mo: Option<char>,
    k: Seq<char>,
    x: Seq<char>,
)
    ensures
        key_loads(create::with_patterns(m, mode, patterns, id), mo, k, x) <==> key_loads(
            m,
            mo,
            k,
            x,
        ) || (mo == mode && patterns.contains(k) && x == id),
    decreases patterns.len(),
{
    if patterns.len() > 0 {
        let front = patterns.drop_last();
        let last = patterns.last();
        let before = create::with_patterns(m, mode, front, id);
        lemma_patterns(m, mode, front, id, mo, k, x);
        assert(patterns =~= front.push(last));
        order::lemma_contains_push(front, last, k);
        let inner = lazy_registration::mode_at(before, mode);
        order::lemma_contains_push(lazy_registration::ids_at(inner, last), id, x);
    }
}

proof fn lemma_modes(
    m: Map<Option<char>, Map<Seq<char>, Seq<Seq<char>>>>,
    modes: Seq<(Option<char>, Seq<Seq<char>>)>,
    id: Seq<char>,
    mo: Option<char>,
    k: Seq<char>,
    x: Seq<char>,
)
    ensures
        key_loads(create::with_modes(m, modes, id), mo, k, x) <==> key_loads(m, mo, k, x) || (x
            == id && maps(Event::OnMap(modes), mo, k)),
    decreases modes.len(),
{
    if modes.len() > 0 {
        let front = modes.drop_last();
        let last = modes.last();
        lemma_modes(m, front, id, mo, k, x);
        lemma_patterns(create::with_modes(m, front, id), last.0, last.1, id, mo, k, x);
        let own = Event::OnMap(modes);
        assert(own->OnMap_0 == modes);
        if maps(Event::OnMap(front), mo, k) {
            let less = Event::OnMap(front);
            assert(less->OnMap_0 == front);
            let i = choose|i: int|
                0 <= i < front.len() && (#[trigger] front[i]).0 == mo && front[i].1.contains(k);
            assert(modes[i] == front[i]);
            assert(maps(own, mo, k));
        }
        if mo == last.0 && last.1.contains(k) {
            assert(modes[modes.len() - 1].0 == mo);
            assert(maps(own, mo, k));
        }
        if maps(Event::OnMap(modes), mo, k) {
            let i = choose|i: int|
                0 <= i < modes.len() && (#[trigger] modes[i]).0 == mo && modes[i].1.contains(k);
            if i < front.len() {
                assert(front[i] == modes[i]);
                assert(maps(Event::OnMap(front), mo, k));
            } else {
                assert(modes[i] == last);
            }
        }
    }
}

/// A package that is loaded lazily is registered under every pattern of every mode that an event of
/// it maps, and under no other.
pub proof fn law_mappings_are_registered(
    events: Seq<Event>,
    id: Seq<char>,
    mode: Option<char>,
    k: Seq<char>,
    x: Seq<char>,
)
    ensures
        key_loads(create::mapped(events, id), mode, k, x) <==> x == id && exists|i: int|
            0 <= i < events.len() && maps(#[trigger] events[i], mode, k),
    decreases events.len(),
{
    if events.len() > 0 {
        let front = events.drop_last();
        let last = events.last();
        let before = create::mapped(front, id);
        law_mappings_are_registered(front, id, mode, k, x);
        assert(events[events.len() - 1] == last);
        match last {
            Event::OnMap(modes) => {
                lemma_modes(before, modes, id, mode, k, x);
            },
            _ => {},
        }
        if exists|i: int| 0 <= i < front.len() && maps(#[trigger] front[i], mode, k) {
            let i = choose|i: int| 0 <= i < front.len() && maps(#[trigger] front[i], mode, k);
            assert(events[i] == front[i]);
        }
        if exists|i: int| 0 <= i < events.len() && maps(#[trigger] events[i], mode, k) {
            let i = choose|i: int| 0 <= i < events.len() && maps(#[trigger] events[i], mode, k);
            if i < front.len() {
                assert(front[i] == events[i]);
            }
        }
    }
}

/// The mappings of a package are those of its events.
pub proof fn law_mappings_of_package(
    id: Seq<char>,
    names: Seq<Seq<char>>,
    events: Seq<Event>,
    script: Scripts,
    order: int,
    mode: Option<char>,
    k: Seq<char>,
    x: Seq<char>,
)
    ensures
        key_loads(
            create::created(id, names, Lazy::Opt(events), script, order).keys,
            mode,
            k,
            x,
        ) <==> x == id && exists|i: int|
            0 <= i < events.len() && maps(#[trigger] events[i], mode, k),
{
    law_mappings_are_registered(events, id, mode, k, x);
}

proof fn lemma_added<T>(a: Seq<T>, b: Seq<T>, x: T)
    ensures
        (a + b).contains(x) <==> a.contains(x) || b.contains(x),
{
    if (a + b).contains(x) {
        let i = (a + b).index_of(x);
        if i < a.len() {
            assert(a[i] == x);
        } else {
            assert(b[i - a.len()] == x);
        }
    }
    if a.contains(x) {
        let i = a.index_of(x);
        assert((a + b)[i] == x);
    }
    if b.contains(x) {
        let i = b.index_of(x);
        assert((a + b)[a.len() + i] == x);
    }
}

proof fn lemma_both(
    a: Map<Seq<char>, Seq<Seq<char>>>,
    b: Map<Seq<char>, Seq<Seq<char>>>,
    k: Seq<char>,
    x: Seq<char>,
)
    ensures
        ({
            let all = lazy_registration::deduplicated(lazy_registration::appended(a, b));
            &&& loads(all, k, x) <==> loads(a, k, x) || loads(b, k, x)
            &&& all.contains_key(k) <==> a.contains_key(k) || b.contains_key(k)
            &&& all.contains_key(k) ==> all[k].no_duplicates()
        }),
{
    let joined = lazy_registration::ids_at(a, k) + lazy_registration::ids_at(b, k);
    lemma_added(lazy_registration::ids_at(a, k), lazy_registration::ids_at(b, k), x);
    lazy_registration::law_first_occurrences(joined);
    let all = lazy_registration::deduplicated(lazy_registration::appended(a, b));
    if a.contains_key(k) || b.contains_key(k) {
        assert(lazy_registration::appended(a, b)[k] == joined);
        assert(all[k] == lazy_registration::first_occurrences(joined));
    }
}

/// Two registrations in one load, by every trigger, what either of them loads, and nothing else; and
/// no trigger loads a package twice.
pub proof fn law_both_load(
    a: Registration,
    b: Registration,
    mode: Option<char>,
    k: Seq<char>,
    x: Seq<char>,
)
    ensures
        ({
            let r = lazy_registration::both(a, b);
            &&& loads(r.events, k, x) <==> loads(a.events, k, x) || loads(b.events, k, x)
            &&& loads(r.cmds, k, x) <==> loads(a.cmds, k, x) || loads(b.cmds, k, x)
            &&& loads(r.fts, k, x) <==> loads(a.fts, k, x) || loads(b.fts, k, x)
            &&& loads(r.funcs, k, x) <==> loads(a.funcs, k, x) || loads(b.funcs, k, x)
            &&& loads(r.luams, k, x) <==> loads(a.luams, k, x) || loads(b.luams, k, x)
            &&& loads(r.sources, k, x) <==> loads(a.sources, k, x) || loads(b.sources, k, x)
            &&& key_loads(r.keys, mode, k, x) <==> key_loads(a.keys, mode, k, x) || key_loads(
                b.keys,
                mode,
                k,
                x,
            )
            &&& r.events.contains_key(k) ==> r.events[k].no_duplicates()
            &&& r.cmds.contains_key(k) ==> r.cmds[k].no_duplicates()
            &&& r.fts.contains_key(k) ==> r.fts[k].no_duplicates()
            &&& r.funcs.contains_key(k) ==> r.funcs[k].no_duplicates()
            &&& r.luams.contains_key(k) ==> r.luams[k].no_duplicates()
            &&& r.sources.contains_key(k) ==> r.sources[k].no_duplicates()
        }),
{
    lemma_both(a.events, b.events, k, x);
    lemma_both(a.cmds, b.cmds, k, x);
    lemma_both(a.fts, b.fts, k, x);
    lemma_both(a.funcs, b.funcs, k, x);
    lemma_both(a.luams, b.luams, k, x);
    lemma_both(a.sources, b.sources, k, x);
    lemma_both(
        lazy_registration::mode_at(a.keys, mode),
        lazy_registration::mode_at(b.keys, mode),
        k,
        x,
    );
}

/// Two registrations in one have the scripts of the first and then those of the second; and a name
/// of both is found in the second.
pub proof fn law_both_scripts(a: Registration, b: Registration, name: Seq<char>)
    ensures
        ({
            let r = lazy_registration::both(a, b);
            &&& r.scripts.len() == a.scripts.len() + b.scripts.len()
            &&& forall|i: int| 0 <= i < a.scripts.len() ==> #[trigger] r.scripts[i] == a.scripts[i]
            &&& forall|i: int|
                0 <= i < b.scripts.len() ==> r.scripts[a.scripts.len() + i] == #[trigger] b.scripts[i]
            &&& r.targets.contains_key(name) <==> a.targets.contains_key(name)
                || b.targets.contains_key(name)
            &&& b.targets.contains_key(name) ==> r.targets[name] == b.targets[name]
            &&& a.targets.contains_key(name) && !b.targets.contains_key(name) ==> r.targets[name]
                == a.targets[name]
        }),
{
}

proof fn lemma_first_of_distinct(s: Seq<Seq<char>>, t: Seq<Seq<char>>)
    requires
        s.no_duplicates(),
    ensures
        s.is_prefix_of(lazy_registration::first_occurrences(s + t)),
    decreases s.len() + t.len(),
{
    if t.len() > 0 {
        let front = t.drop_last();
        lemma_first_of_distinct(s, front);
        assert((s + t).drop_last() =~= s + front);
        let before = lazy_registration::first_occurrences(s + front);
        let more = before.push(t.last());
        assert(s =~= before.subrange(0, s.len() as int));
        assert(s =~= more.subrange(0, s.len() as int));
    } else if s.len() > 0 {
        let front = s.drop_last();
        assert(front.no_duplicates());
        lemma_first_of_distinct(front, t);
        assert(s + t =~= s);
        assert(front + t =~= front);
        lemma_distinct(s);
        assert(s =~= s.subrange(0, s.len() as int));
    } else {
        assert(s =~= lazy_registration::first_occurrences(s + t).subrange(0, 0));
    }
}

proof fn lemma_distinct(s: Seq<Seq<char>>)
    requires
        s.no_duplicates(),
    ensures
        lazy_registration::first_occurrences(s) == s,
    decreases s.len(),
{
    if s.len() > 0 {
        let front = s.drop_last();
        assert(front.no_duplicates());
        lemma_distinct(front);
        assert(!front.contains(s.last())) by {
            if front.contains(s.last()) {
                let i = front.index_of(s.last());
                assert(s[i] == s[s.len() - 1]);
            }
        }
        assert(front.push(s.last()) =~= s);
    } else {
        assert(s =~= Seq::<Seq<char>>::empty());
    }
}

/// A trigger loads what the first registration loads, in its order, before what only the second
/// does.
pub proof fn law_first_registered_first(a: Registration, b: Registration, k: Seq<char>)
    requires
        a.events.contains_key(k),
        a.events[k].no_duplicates(),
    ensures
        a.events[k].is_prefix_of(lazy_registration::both(a, b).events[k]),
{
    lemma_first_of_distinct(a.events[k], lazy_registration::ids_at(b.events, k));
}

/// Of no registration nothing is registered, and each further one adds what it has.
pub proof fn law_all_registered(
    list: Seq<Registration>,
    r: Registration,
    mode: Option<char>,
    k: Seq<char>,
    x: Seq<char>,
)
    ensures
        lazy_registration::registers_nothing(
            lazy_registration::all_of(Seq::<Registration>::empty()),
        ),
        ({
            let before = lazy_registration::all_of(list);
            let after = lazy_registration::all_of(list.push(r));
            &&& after.scripts == before.scripts + r.scripts
            &&& loads(after.events, k, x) <==> loads(before.events, k, x) || loads(r.events, k, x)
            &&& loads(after.cmds, k, x) <==> loads(before.cmds, k, x) || loads(r.cmds, k, x)
            &&& loads(after.fts, k, x) <==> loads(before.fts, k, x) || loads(r.fts, k, x)
            &&& loads(after.funcs, k, x) <==> loads(before.funcs, k, x) || loads(r.funcs, k, x)
            &&& loads(after.luams, k, x) <==> loads(before.luams, k, x) || loads(r.luams, k, x)
            &&& loads(after.sources, k, x) <==> loads(before.sources, k, x) || loads(r.sources, k, x)
            &&& key_loads(after.keys, mode, k, x) <==> key_loads(before.keys, mode, k, x)
                || key_loads(r.keys, mode, k, x)
            &&& r.targets.contains_key(k) ==> after.targets.contains_key(k) && after.targets[k]
                == r.targets[k]
            &&& before.targets.contains_key(k) && !r.targets.contains_key(k)
                ==> after.targets.contains_key(k) && after.targets[k] == before.targets[k]
        }),
{
    assert(list.push(r).drop_last() =~= list);
    assert(list.push(r).last() == r);
    law_both_load(lazy_registration::all_of(list), r, mode, k, x);
    law_both_scripts(lazy_registration::all_of(list), r, k);
}

/// Where nothing is registered no trigger loads anything, there is no script, and no name.
pub proof fn law_nothing_registered(
    r: Registration,
    mode: Option<char>,
    k: Seq<char>,
    x: Seq<char>,
)
    requires
        lazy_registration::registers_nothing(r),
    ensures
        r.scripts.len() == 0,
        !r.targets.contains_key(k),
        !loads(r.events, k, x),
        !loads(r.cmds, k, x),
        !loads(r.fts, k, x),
        !loads(r.funcs, k, x),
        !loads(r.luams, k, x),
        !loads(r.sources, k, x),
        !key_loads(r.keys, mode, k, x),
{
}

} // verus!
