//! The registration of one package.

use crate::config::{Scripts, SetupScript};
use crate::digest;
use crate::lazy_registration;
use crate::lazy_registration::{
    append_ids, append_keys, LazyRegistration, PkgId2ScriptsItem, Registration, ScriptsItem,
};
use crate::lazy_type;
use crate::lazy_type::{Event, KeyPattern, Lazy, LazyType, LoadEvent, ModeChar};
use crate::loaded;
use crate::loaded::PluginId;
use crate::order;
use crate::order::{Key, SortedMap, SortedSet};
use crate::text;
use vstd::prelude::*;

verus! {

pub open spec fn on_event() -> spec_fn(Seq<char>) -> Event {
    |k: Seq<char>| Event::Autocmd(k)
}

pub open spec fn on_cmd() -> spec_fn(Seq<char>) -> Event {
    |k: Seq<char>| Event::UserCmd(k)
}

pub open spec fn on_ft() -> spec_fn(Seq<char>) -> Event {
    |k: Seq<char>| Event::FileType(k)
}

pub open spec fn on_func() -> spec_fn(Seq<char>) -> Event {
    |k: Seq<char>| Event::VimFunc(k)
}

pub open spec fn on_luam() -> spec_fn(Seq<char>) -> Event {
    |k: Seq<char>| Event::LuaModule(k)
}

pub open spec fn on_source() -> spec_fn(Seq<char>) -> Event {
    |k: Seq<char>| Event::OnSource(k)
}

/// The triggers of one sort among the events, each with one package.
pub open spec fn triggered(
    events: Seq<Event>,
    sort: spec_fn(Seq<char>) -> Event,
    id: Seq<char>,
) -> Map<Seq<char>, Seq<Seq<char>>> {
    Map::new(|k: Seq<char>| events.contains(sort(k)), |k: Seq<char>| seq![id])
}

/// The mappings with one package more for a pattern.
pub open spec fn with_key(
    m: Map<Option<char>, Map<Seq<char>, Seq<Seq<char>>>>,
    mode: Option<char>,
    pattern: Seq<char>,
    id: Seq<char>,
) -> Map<Option<char>, Map<Seq<char>, Seq<Seq<char>>>> {
    let inner = lazy_registration::mode_at(m, mode);
    m.insert(mode, inner.insert(pattern, lazy_registration::ids_at(inner, pattern).push(id)))
}

/// The mappings with one package more for each of the patterns of a mode.
pub open spec fn with_patterns(
    m: Map<Option<char>, Map<Seq<char>, Seq<Seq<char>>>>,
    mode: Option<char>,
    patterns: Seq<Seq<char>>,
    id: Seq<char>,
) -> Map<Option<char>, Map<Seq<char>, Seq<Seq<char>>>>
    decreases patterns.len(),
{
    if patterns.len() == 0 {
        m
    } else {
        with_key(with_patterns(m, mode, patterns.drop_last(), id), mode, patterns.last(), id)
    }
}

/// The mappings with one package more for each pattern of each mode.
pub open spec fn with_modes(
    m: Map<Option<char>, Map<Seq<char>, Seq<Seq<char>>>>,
    modes: Seq<(Option<char>, Seq<Seq<char>>)>,
    id: Seq<char>,
) -> Map<Option<char>, Map<Seq<char>, Seq<Seq<char>>>>
    decreases modes.len(),
{
    if modes.len() == 0 {
        m
    } else {
        with_patterns(with_modes(m, modes.drop_last(), id), modes.last().0, modes.last().1, id)
    }
}

/// The mappings among the events, each with one package.
pub open spec fn mapped(events: Seq<Event>, id: Seq<char>) -> Map<
    Option<char>,
    Map<Seq<char>, Seq<Seq<char>>>,
>
    decreases events.len(),
{
    if events.len() == 0 {
        Map::empty()
    } else {
        let before = mapped(events.drop_last(), id);
        match events.last() {
            Event::OnMap(modes) => with_modes(before, modes, id),
            _ => before,
        }
    }
}

/// The registration of a package: under the names of its plugins, with its scripts, and, where it
/// is lazy, under each of its triggers.
pub open spec fn created(
    id: Seq<char>,
    names: Seq<Seq<char>>,
    lazy: Lazy,
    script: Scripts,
    order: int,
) -> Registration {
    let targets = Map::new(|k: Seq<char>| names.contains(k), |k: Seq<char>| id);
    let item = ScriptsItem { pkgid: id, script, order, start: lazy is Start };
    match lazy {
        Lazy::Start => Registration {
            scripts: seq![item],
            targets,
            ..lazy_registration::no_registration()
        },
        Lazy::Opt(events) => Registration {
            scripts: seq![item],
            events: triggered(events, on_event(), id),
            cmds: triggered(events, on_cmd(), id),
            fts: triggered(events, on_ft(), id),
            funcs: triggered(events, on_func(), id),
            luams: triggered(events, on_luam(), id),
            sources: triggered(events, on_source(), id),
            targets,
            keys: mapped(events, id),
        },
    }
}

proof fn lemma_other_sort(
    events: Seq<Event>,
    e: Event,
    sort: spec_fn(Seq<char>) -> Event,
    id: Seq<char>,
)
    requires
        forall|k: Seq<char>| #[trigger] sort(k) != e,
    ensures
        triggered(events.push(e), sort, id) == triggered(events, sort, id),
{
    assert(triggered(events.push(e), sort, id) =~= triggered(events, sort, id)) by {
        assert forall|k: Seq<char>| #[trigger]
            events.push(e).contains(sort(k)) == events.contains(sort(k)) by {
            order::lemma_contains_push(events, e, sort(k));
        }
    }
}

proof fn lemma_same_sort(
    events: Seq<Event>,
    e: Event,
    sort: spec_fn(Seq<char>) -> Event,
    id: Seq<char>,
    key: Seq<char>,
)
    requires
        sort(key) == e,
        forall|k: Seq<char>| #[trigger] sort(k) == e ==> k == key,
        !events.contains(e),
    ensures
        triggered(events.push(e), sort, id) == triggered(events, sort, id).insert(
            key,
            lazy_registration::ids_at(triggered(events, sort, id), key) + seq![id],
        ),
{
    let before = triggered(events, sort, id);
    let after = triggered(events.push(e), sort, id);
    assert(!before.contains_key(key));
    assert(Seq::<Seq<char>>::empty() + seq![id] =~= seq![id]);
    assert forall|k: Seq<char>| #[trigger] after.contains_key(k) <==> before.contains_key(k)
        || k == key by {
        order::lemma_contains_push(events, e, sort(k));
    }
    assert(after =~= before.insert(key, seq![id]));
}

fn one_id(id: &String) -> (list: Vec<String>)
    ensures
        text::strings(list@) == seq![id@],
{
    let mut list: Vec<String> = Vec::new();
    list.push(id.clone());
    assert(text::strings(list@) =~= seq![id@]);
    list
}

fn add_key(
    map: &mut SortedMap<ModeChar, SortedMap<String, Vec<String>>>,
    mode: ModeChar,
    pattern: String,
    id: &String,
)
    requires
        lazy_registration::key_map_wf(*old(map)),
    ensures
        lazy_registration::key_map_wf(*final(map)),
        lazy_registration::key_map(*final(map)) == with_key(
            lazy_registration::key_map(*old(map)),
            mode.0,
            pattern@,
            id@,
        ),
{
    let ghost p = pattern@;
    let ghost before = lazy_registration::mode_at(lazy_registration::key_map(*map), mode.0);
    let mut inner: SortedMap<String, Vec<String>> = SortedMap::new();
    append_ids(&mut inner, pattern, one_id(id));
    proof {
        let none = Map::<Seq<char>, Seq<Seq<char>>>::empty();
        let single = lazy_registration::trigger_map(inner);
        assert(Seq::<Seq<char>>::empty() + seq![id@] =~= seq![id@]);
        assert(single =~= none.insert(p, seq![id@]));
        let ids = lazy_registration::ids_at(before, p);
        assert(ids + seq![id@] =~= ids.push(id@));
        assert(lazy_registration::appended(before, single) =~= before.insert(p, ids.push(id@))) by {
            assert forall|k: Seq<char>| k != p && before.contains_key(k) implies lazy_registration::appended(before, single)[k] == before[k] by {
                assert(before[k] + Seq::<Seq<char>>::empty() =~= before[k]);
            }
        }
    }
    append_keys(map, mode, inner);
}

fn add_patterns(
    map: &mut SortedMap<ModeChar, SortedMap<String, Vec<String>>>,
    mode: &ModeChar,
    patterns: &Vec<String>,
    id: &String,
)
    requires
        lazy_registration::key_map_wf(*old(map)),
    ensures
        lazy_registration::key_map_wf(*final(map)),
        lazy_registration::key_map(*final(map)) == with_patterns(
            lazy_registration::key_map(*old(map)),
            mode.0,
            text::strings(patterns@),
            id@,
        ),
{
    let ghost before = lazy_registration::key_map(*map);
    let ghost all = text::strings(patterns@);
    let mut i: usize = 0;
    assert(all.take(0) =~= Seq::<Seq<char>>::empty());
    while i < patterns.len()
        invariant
            i <= patterns@.len(),
            all == text::strings(patterns@),
            lazy_registration::key_map_wf(*map),
            lazy_registration::key_map(*map) == with_patterns(
                before,
                mode.0,
                all.take(i as int),
                id@,
            ),
        decreases patterns@.len() - i,
    {
        proof {
            assert(all.take(i as int + 1).drop_last() =~= all.take(i as int));
            assert(all.take(i as int + 1).last() == patterns@[i as int]@);
        }
        add_key(map, mode.duplicate(), patterns[i].clone(), id);
        i = i + 1;
    }
    assert(all.take(i as int) =~= all);
}

fn add_modes(
    map: &mut SortedMap<ModeChar, SortedMap<String, Vec<String>>>,
    modes: &KeyPattern,
    id: &String,
)
    requires
        lazy_registration::key_map_wf(*old(map)),
    ensures
        lazy_registration::key_map_wf(*final(map)),
        lazy_registration::key_map(*final(map)) == with_modes(
            lazy_registration::key_map(*old(map)),
            lazy_type::pattern_model(*modes),
            id@,
        ),
{
    let ghost before = lazy_registration::key_map(*map);
    let ghost all = lazy_type::pattern_model(*modes);
    let n: usize = modes.0.len();
    let mut i: usize = 0;
    assert(all.take(0) =~= Seq::<(Option<char>, Seq<Seq<char>>)>::empty());
    while i < n
        invariant
            i <= n,
            n == modes.0.keys().len(),
            all == lazy_type::pattern_model(*modes),
            lazy_registration::key_map_wf(*map),
            lazy_registration::key_map(*map) == with_modes(before, all.take(i as int), id@),
        decreases n - i,
    {
        proof {
            assert(all.take(i as int + 1).drop_last() =~= all.take(i as int));
            assert(all.take(i as int + 1).last() == all[i as int]);
        }
        add_patterns(map, modes.0.key_at(i), modes.0.value_at(i), id);
        i = i + 1;
    }
    assert(all.take(i as int) =~= all);
}

/// The package under every name.
fn name_targets(names: SortedSet<String>, id: &String) -> (map: SortedMap<String, String>)
    ensures
        map.wf(),
        lazy_registration::target_map(map) == Map::new(
            |k: Seq<char>| names.members().contains(k),
            |k: Seq<char>| id@,
        ),
{
    let ghost all = names.members();
    let mut map: SortedMap<String, String> = SortedMap::new();
    let n: usize = names.len();
    let mut i: usize = 0;
    while i < n
        invariant
            i <= n,
            all == names.members(),
            n == all.len(),
            map.wf(),
            forall|k: Seq<char>| #[trigger] map.has(k) <==> all.take(i as int).contains(k),
            forall|k: Seq<char>| #[trigger] map.has(k) ==> map.at(k)@ == id@,
        decreases n - i,
    {
        let ghost before = map;
        let name = names.at(i).clone();
        let ghost new = name@;
        map.insert(name, id.clone());
        proof {
            assert(all.take(i as int + 1) =~= all.take(i as int).push(new));
            assert forall|k: Seq<char>| #[trigger] map.has(k) <==> all.take(
                i as int + 1,
            ).contains(k) by {
                order::lemma_contains_push(all.take(i as int), new, k);
                assert(before.has(k) <==> all.take(i as int).contains(k));
            }
            assert forall|k: Seq<char>| #[trigger] map.has(k) implies map.at(k)@ == id@ by {
                if k != new {
                    assert(before.has(k));
                }
            }
        }
        i = i + 1;
    }
    assert(all.take(i as int) =~= all);
    assert(lazy_registration::target_map(map) =~= Map::new(
        |k: Seq<char>| names.members().contains(k),
        |k: Seq<char>| id@,
    ));
    map
}

/// The triggers of a lazy package.
pub open spec fn trigger_part(events: Seq<Event>, id: Seq<char>) -> Registration {
    Registration {
        scripts: Seq::empty(),
        events: triggered(events, on_event(), id),
        cmds: triggered(events, on_cmd(), id),
        fts: triggered(events, on_ft(), id),
        funcs: triggered(events, on_func(), id),
        luams: triggered(events, on_luam(), id),
        sources: triggered(events, on_source(), id),
        targets: Map::empty(),
        keys: mapped(events, id),
    }
}

proof fn lemma_other_sorts(events: Seq<Event>, e: Event, id: Seq<char>)
    ensures
        !(e is Autocmd) ==> triggered(events.push(e), on_event(), id) == triggered(
            events,
            on_event(),
            id,
        ),
        !(e is UserCmd) ==> triggered(events.push(e), on_cmd(), id) == triggered(
            events,
            on_cmd(),
            id,
        ),
        !(e is FileType) ==> triggered(events.push(e), on_ft(), id) == triggered(
            events,
            on_ft(),
            id,
        ),
        !(e is VimFunc) ==> triggered(events.push(e), on_func(), id) == triggered(
            events,
            on_func(),
            id,
        ),
        !(e is LuaModule) ==> triggered(events.push(e), on_luam(), id) == triggered(
            events,
            on_luam(),
            id,
        ),
        !(e is OnSource) ==> triggered(events.push(e), on_source(), id) == triggered(
            events,
            on_source(),
            id,
        ),
        !(e is OnMap) ==> mapped(events.push(e), id) == mapped(events, id),
{
    assert(events.push(e).drop_last() =~= events);
    if !(e is Autocmd) {
        lemma_other_sort(events, e, on_event(), id);
    }
    if !(e is UserCmd) {
        lemma_other_sort(events, e, on_cmd(), id);
    }
    if !(e is FileType) {
        lemma_other_sort(events, e, on_ft(), id);
    }
    if !(e is VimFunc) {
        lemma_other_sort(events, e, on_func(), id);
    }
    if !(e is LuaModule) {
        lemma_other_sort(events, e, on_luam(), id);
    }
    if !(e is OnSource) {
        lemma_other_sort(events, e, on_source(), id);
    }
}

fn add_event(r: &mut LazyRegistration, event: &LoadEvent, id: &String, Ghost(events): Ghost<Seq<Event>>)
    requires
        old(r).wf(),
        old(r)@ == trigger_part(events, id@),
        !events.contains(event.model()),
    ensures
        final(r).wf(),
        final(r)@ == trigger_part(events.push(event.model()), id@),
{
    let ghost e = event.model();
    proof {
        lemma_other_sorts(events, e, id@);
        assert(events.push(e).drop_last() =~= events);
    }
    match event {
        LoadEvent::Autocmd(k) => {
            proof {
                lemma_same_sort(events, e, on_event(), id@, k@);
            }
            append_ids(&mut r.event2pkgid, k.clone(), one_id(id));
        },
        LoadEvent::UserCmd(k) => {
            proof {
                lemma_same_sort(events, e, on_cmd(), id@, k@);
            }
            append_ids(&mut r.cmd2pkgid, k.clone(), one_id(id));
        },
        LoadEvent::FileType(k) => {
            proof {
                lemma_same_sort(events, e, on_ft(), id@, k@);
            }
            append_ids(&mut r.ft2pkgid, k.clone(), one_id(id));
        },
        LoadEvent::VimFunc(k) => {
            proof {
                lemma_same_sort(events, e, on_func(), id@, k@);
            }
            append_ids(&mut r.func2pkgid, k.clone(), one_id(id));
        },
        LoadEvent::LuaModule(k) => {
            proof {
                lemma_same_sort(events, e, on_luam(), id@, k@);
            }
            append_ids(&mut r.luam2pkgid, k.clone(), one_id(id));
        },
        LoadEvent::OnSource(k) => {
            proof {
                lemma_same_sort(events, e, on_source(), id@, k@);
            }
            append_ids(&mut r.source_name2pkgid, k.clone(), one_id(id));
        },
        LoadEvent::OnMap(pattern) => {
            add_modes(&mut r.keypattern2pkgid, pattern, id);
        },
    }
}

proof fn lemma_no_events(id: Seq<char>)
    ensures
        trigger_part(Seq::empty(), id) == lazy_registration::no_registration(),
{
    let none = trigger_part(Seq::empty(), id);
    assert(none.events =~= Map::<Seq<char>, Seq<Seq<char>>>::empty());
    assert(none.cmds =~= Map::<Seq<char>, Seq<Seq<char>>>::empty());
    assert(none.fts =~= Map::<Seq<char>, Seq<Seq<char>>>::empty());
    assert(none.funcs =~= Map::<Seq<char>, Seq<Seq<char>>>::empty());
    assert(none.luams =~= Map::<Seq<char>, Seq<Seq<char>>>::empty());
    assert(none.sources =~= Map::<Seq<char>, Seq<Seq<char>>>::empty());
    assert(none.targets =~= Map::<Seq<char>, Seq<char>>::empty());
}

fn add_events(events: &SortedSet<LoadEvent>, id: &String) -> (r: LazyRegistration)
    requires
        events.wf(),
    ensures
        r.wf(),
        r@ == trigger_part(events.members(), id@),
{
    let ghost all = events.members();
    let mut r = LazyRegistration::new();
    let n: usize = events.len();
    let mut i: usize = 0;
    proof {
        assert(all.take(0) =~= Seq::<Event>::empty());
        lemma_no_events(id@);
    }
    while i < n
        invariant
            i <= n,
            all == events.members(),
            n == all.len(),
            order::ascending::<LoadEvent>(all),
            r.wf(),
            r@ == trigger_part(all.take(i as int), id@),
        decreases n - i,
    {
        proof {
            order::lemma_ascending_distinct::<LoadEvent>(all);
            assert(all.take(i as int + 1) =~= all.take(i as int).push(all[i as int]));
            assert forall|j: int| 0 <= j < i implies all.take(i as int)[j] != all[i as int] by {
                assert(all.take(i as int)[j] == all[j]);
            }
        }
        add_event(&mut r, events.at(i), id, Ghost(all.take(i as int)));
        i = i + 1;
    }
    assert(all.take(i as int) =~= all);
    r
}

impl LazyRegistration {
    /// Registers a package.
    pub fn create(
        id: PluginId,
        source_names: SortedSet<String>,
        lazy_type: LazyType,
        script: SetupScript,
        order: usize,
    ) -> (r: LazyRegistration)
        requires
            loaded::lazy_wf(lazy_type),
            script.wf(),
        ensures
            r.wf(),
            r@ == created(
                digest::digest_text(id.digest),
                source_names.members(),
                lazy_type@,
                script@,
                order as int,
            ),
    {
        let id_str = id.as_str();
        let targets = name_targets(source_names, &id_str);
        let (mut r, start) = match &lazy_type {
            LazyType::Start => (LazyRegistration::new(), true),
            LazyType::Opt(events) => (add_events(events, &id_str), false),
        };
        r.source_target2pkgid = targets;
        let item = PkgId2ScriptsItem { pkgid: id_str, script, order, start };
        let ghost model = item@;
        r.pkgid2scripts.push(item);
        assert(r@.scripts =~= seq![model]);
        r
    }
}

} // verus!
