//! What the generated Lua files are rendered from.

use crate::lazy_registration;
use crate::lazy_registration::{LazyRegistration, PkgId2ScriptsItem, ScriptsItem};
use crate::lazy_type::duplicate_strings;
use crate::order;
use crate::order::{Key, Order, SortedMap, SortedSet};
use crate::text;
use vstd::prelude::*;

verus! {

/// The scripts that run around the load of a package.
pub struct HookScripts {
    pub pkgid: String,
    pub before: Vec<String>,
    pub after: Vec<String>,
}

/// What hook scripts are, mathematically.
pub struct Hook {
    pub pkgid: Seq<char>,
    pub before: Seq<Seq<char>>,
    pub after: Seq<Seq<char>>,
}

impl View for HookScripts {
    type V = Hook;

    open spec fn view(&self) -> Hook {
        Hook {
            pkgid: self.pkgid@,
            before: text::strings(self.before@),
            after: text::strings(self.after@),
        }
    }
}

pub open spec fn hook_views(list: Seq<HookScripts>) -> Seq<Hook> {
    list.map_values(|h: HookScripts| h@)
}

/// Whether scripts run around the load of the package.
pub open spec fn has_hook(item: ScriptsItem) -> bool {
    item.script.lua_before.len() > 0 || item.script.lua_after.len() > 0
}

/// The hooks of the packages that have any, in order.
pub open spec fn hooks(items: Seq<ScriptsItem>) -> Seq<Hook>
    decreases items.len(),
{
    if items.len() == 0 {
        Seq::empty()
    } else {
        let front = hooks(items.drop_last());
        let item = items.last();
        if has_hook(item) {
            front.push(
                Hook {
                    pkgid: item.pkgid,
                    before: item.script.lua_before,
                    after: item.script.lua_after,
                },
            )
        } else {
            front
        }
    }
}

/// The packages that are loaded at startup, with their order.
pub open spec fn started(items: Seq<ScriptsItem>) -> Seq<(int, Seq<char>)>
    decreases items.len(),
{
    if items.len() == 0 {
        Seq::empty()
    } else {
        let front = started(items.drop_last());
        if items.last().start {
            front.push((items.last().order, items.last().pkgid))
        } else {
            front
        }
    }
}

/// `ids` are the packages loaded at startup, by order and then by identity.
pub open spec fn is_startup_plugins(ids: Seq<Seq<char>>, items: Seq<ScriptsItem>) -> bool {
    exists|keys: Seq<(int, Seq<char>)>| #[trigger]
        order::sorted_from::<(usize, String)>(keys, started(items)) && ids == keys.map_values(
            |k: (int, Seq<char>)| k.1,
        )
}

/// A package's startup scripts, with its order and identity.
pub open spec fn item_scripts(item: ScriptsItem) -> Seq<(int, (Seq<char>, Seq<char>))> {
    item.script.lua_start.map_values(|content: Seq<char>| (item.order, (item.pkgid, content)))
}

/// All startup scripts.
pub open spec fn start_scripts(items: Seq<ScriptsItem>) -> Seq<(int, (Seq<char>, Seq<char>))>
    decreases items.len(),
{
    if items.len() == 0 {
        Seq::empty()
    } else {
        start_scripts(items.drop_last()) + item_scripts(items.last())
    }
}

/// `contents` are the startup scripts, by order, then by package, then by content.
pub open spec fn is_startup_scripts(contents: Seq<Seq<char>>, items: Seq<ScriptsItem>) -> bool {
    exists|keys: Seq<(int, (Seq<char>, Seq<char>))>| #[trigger]
        order::sorted_from::<(usize, (String, String))>(keys, start_scripts(items)) && contents
            == keys.map_values(|k: (int, (Seq<char>, Seq<char>))| k.1.1)
}

/// The packages to load with each of the named plugins that there is, under its package.
pub open spec fn sourced(
    names: Seq<Seq<char>>,
    sources: Map<Seq<char>, Seq<Seq<char>>>,
    targets: Map<Seq<char>, Seq<char>>,
) -> Seq<(Seq<char>, Seq<Seq<char>>)>
    decreases names.len(),
{
    if names.len() == 0 {
        Seq::empty()
    } else {
        let front = sourced(names.drop_last(), sources, targets);
        if targets.contains_key(names.last()) {
            front.push((targets[names.last()], sources[names.last()]))
        } else {
            front
        }
    }
}

/// Packages to load with a package.
pub open spec fn followers(list: Seq<(String, Vec<String>)>) -> Seq<(Seq<char>, Seq<Seq<char>>)> {
    list.map_values(|e: (String, Vec<String>)| (e.0@, text::strings(e.1@)))
}

fn hook_scripts(items: &Vec<PkgId2ScriptsItem>) -> (list: Vec<HookScripts>)
    ensures
        hook_views(list@) == hooks(lazy_registration::script_items(items@)),
{
    let ghost all = lazy_registration::script_items(items@);
    let mut list: Vec<HookScripts> = Vec::new();
    let mut i: usize = 0;
    proof {
        assert(all.take(0) =~= Seq::<ScriptsItem>::empty());
        assert(hook_views(list@) =~= Seq::<Hook>::empty());
    }
    while i < items.len()
        invariant
            i <= items@.len(),
            all == lazy_registration::script_items(items@),
            hook_views(list@) == hooks(all.take(i as int)),
        decreases items@.len() - i,
    {
        let item = &items[i];
        proof {
            assert(all.take(i as int + 1).drop_last() =~= all.take(i as int));
            assert(all.take(i as int + 1).last() == item@);
            order::lemma_set_members(item.script.lua_before);
            order::lemma_set_members(item.script.lua_after);
        }
        if !item.script.lua_before.is_empty() || !item.script.lua_after.is_empty() {
            let ghost before = list@;
            let hook = HookScripts {
                pkgid: item.pkgid.clone(),
                before: duplicate_strings(&item.script.lua_before.members),
                after: duplicate_strings(&item.script.lua_after.members),
            };
            let ghost model = hook@;
            list.push(hook);
            assert(hook_views(list@) =~= hook_views(before).push(model));
        }
        i = i + 1;
    }
    assert(all.take(i as int) =~= all);
    list
}

fn startup_plugins(items: &Vec<PkgId2ScriptsItem>) -> (ids: Vec<String>)
    ensures
        is_startup_plugins(text::strings(ids@), lazy_registration::script_items(items@)),
{
    let ghost all = lazy_registration::script_items(items@);
    let mut list: Vec<(usize, String)> = Vec::new();
    let mut i: usize = 0;
    proof {
        assert(all.take(0) =~= Seq::<ScriptsItem>::empty());
        assert(order::models(list@) =~= Seq::<(int, Seq<char>)>::empty());
    }
    while i < items.len()
        invariant
            i <= items@.len(),
            all == lazy_registration::script_items(items@),
            order::models(list@) == started(all.take(i as int)),
        decreases items@.len() - i,
    {
        let item = &items[i];
        proof {
            assert(all.take(i as int + 1).drop_last() =~= all.take(i as int));
            assert(all.take(i as int + 1).last() == item@);
        }
        if item.start {
            let ghost before = list@;
            list.push((item.order, item.pkgid.clone()));
            assert(order::models(list@) =~= order::models(before).push(
                (item.order as int, item.pkgid@),
            ));
        }
        i = i + 1;
    }
    assert(all.take(i as int) =~= all);
    let sorted = order::sort_keys(list);
    let ghost keys = order::models(sorted@);
    let mut ids: Vec<String> = Vec::new();
    let mut i: usize = 0;
    let ghost wanted = keys.map_values(|k: (int, Seq<char>)| k.1);
    while i < sorted.len()
        invariant
            i <= sorted@.len(),
            keys == order::models(sorted@),
            wanted == keys.map_values(|k: (int, Seq<char>)| k.1),
            text::strings(ids@) == wanted.take(i as int),
        decreases sorted@.len() - i,
    {
        let ghost before = ids@;
        ids.push(sorted[i].1.clone());
        assert(text::strings(ids@) =~= text::strings(before).push(wanted[i as int]));
        assert(wanted.take(i as int + 1) =~= wanted.take(i as int).push(wanted[i as int]));
        i = i + 1;
    }
    assert(wanted.take(i as int) =~= wanted);
    assert(order::sorted_from::<(usize, String)>(keys, started(all)));
    ids
}

fn startup_scripts(items: &Vec<PkgId2ScriptsItem>) -> (contents: Vec<String>)
    ensures
        is_startup_scripts(text::strings(contents@), lazy_registration::script_items(items@)),
{
    let ghost all = lazy_registration::script_items(items@);
    let mut list: Vec<(usize, (String, String))> = Vec::new();
    let mut i: usize = 0;
    proof {
        assert(all.take(0) =~= Seq::<ScriptsItem>::empty());
        assert(order::models(list@) =~= Seq::<(int, (Seq<char>, Seq<char>))>::empty());
    }
    while i < items.len()
        invariant
            i <= items@.len(),
            all == lazy_registration::script_items(items@),
            order::models(list@) == start_scripts(all.take(i as int)),
        decreases items@.len() - i,
    {
        let item = &items[i];
        let ghost front = order::models(list@);
        let ghost own = item_scripts(item@);
        let n: usize = item.script.lua_start.len();
        let mut j: usize = 0;
        proof {
            assert(all.take(i as int + 1).drop_last() =~= all.take(i as int));
            assert(all.take(i as int + 1).last() == item@);
            assert(front + own.take(0) =~= front);
        }
        while j < n
            invariant
                j <= n,
                n == item.script.lua_start.members().len(),
                own == item_scripts(item@),
                order::models(list@) == front + own.take(j as int),
            decreases n - j,
        {
            let ghost before = list@;
            list.push((item.order, (item.pkgid.clone(), item.script.lua_start.at(j).clone())));
            assert(order::models(list@) =~= order::models(before).push(own[j as int]));
            assert(own.take(j as int + 1) =~= own.take(j as int).push(own[j as int]));
            assert(front + own.take(j as int + 1) =~= (front + own.take(j as int)).push(
                own[j as int],
            ));
            j = j + 1;
        }
        assert(own.take(j as int) =~= own);
        i = i + 1;
    }
    assert(all.take(i as int) =~= all);
    let sorted = order::sort_keys(list);
    let ghost keys = order::models(sorted@);
    let mut contents: Vec<String> = Vec::new();
    let mut i: usize = 0;
    let ghost wanted = keys.map_values(|k: (int, (Seq<char>, Seq<char>))| k.1.1);
    while i < sorted.len()
        invariant
            i <= sorted@.len(),
            keys == order::models(sorted@),
            wanted == keys.map_values(|k: (int, (Seq<char>, Seq<char>))| k.1.1),
            text::strings(contents@) == wanted.take(i as int),
        decreases sorted@.len() - i,
    {
        let ghost before = contents@;
        contents.push(sorted[i].1.1.clone());
        assert(text::strings(contents@) =~= text::strings(before).push(wanted[i as int]));
        assert(wanted.take(i as int + 1) =~= wanted.take(i as int).push(wanted[i as int]));
        i = i + 1;
    }
    assert(wanted.take(i as int) =~= wanted);
    assert(order::sorted_from::<(usize, (String, String))>(keys, start_scripts(all)));
    contents
}

/// Puts a package behind all that do not come after it.
fn insert_follower(list: &mut Vec<(String, Vec<String>)>, id: String, ids: Vec<String>, Ghost(
    input,
): Ghost<Seq<(Seq<char>, Seq<Seq<char>>)>>)
    requires
        order::stably_sorted::<String, Seq<Seq<char>>>(followers(old(list)@), input),
    ensures
        order::stably_sorted::<String, Seq<Seq<char>>>(
            followers(final(list)@),
            input.push((id@, text::strings(ids@))),
        ),
{
    let ghost sorted = followers(list@);
    let ghost raw = list@;
    let ghost x = (id@, text::strings(ids@));
    let mut at: usize = list.len();
    proof {
        order::lemma_key_order::<String>();
    }
    while at > 0
        invariant
            list@ == raw,
            sorted == followers(raw),
            at <= raw.len(),
            x.0 == id@,
            order::stably_sorted::<String, Seq<Seq<char>>>(sorted, input),
            forall|a: Seq<char>, b: Seq<char>, c: Seq<char>| #[trigger]
                String::before(a, b) && #[trigger] String::before(b, c) ==> String::before(a, c),
            forall|a: Seq<char>, b: Seq<char>|
                a == b || #[trigger] String::before(a, b) || String::before(b, a),
            forall|i: int|
                at <= i < sorted.len() ==> String::before(x.0, (#[trigger] sorted[i]).0),
        ensures
            at <= raw.len(),
            forall|i: int|
                at <= i < sorted.len() ==> String::before(x.0, (#[trigger] sorted[i]).0),
            forall|i: int| 0 <= i < at ==> !String::before(x.0, (#[trigger] sorted[i]).0),
        decreases at,
    {
        match id.compare(&list[at - 1].0) {
            Order::Less => {
                at = at - 1;
            },
            _ => {
                proof {
                    order::lemma_key_order::<String>();
                    let last = at - 1;
                    assert(!String::before(x.0, sorted[last].0));
                    assert forall|i: int| 0 <= i < at implies !String::before(
                        x.0,
                        (#[trigger] sorted[i]).0,
                    ) by {
                        if i < last && String::before(x.0, sorted[i].0) {
                            assert(!String::before(sorted[last].0, sorted[i].0));
                            assert(sorted[i].0 == sorted[last].0 || String::before(
                                sorted[i].0,
                                sorted[last].0,
                            ));
                        }
                    }
                }
                break;
            },
        }
    }
    proof {
        order::lemma_stable_insert::<String, Seq<Seq<char>>>(sorted, input, at as int, x);
    }
    list.insert(at, (id, ids));
    assert(followers(list@) =~= sorted.insert(at as int, x));
}

/// The packages to load with each package that has a plugin of a given name.  A name that no
/// package has is passed over.
pub fn build_source2pkgid(
    source_name2pkgid: &SortedMap<String, Vec<String>>,
    source_target2pkgid: &SortedMap<String, String>,
) -> (list: Vec<(String, Vec<String>)>)
    requires
        source_name2pkgid.wf(),
        source_target2pkgid.wf(),
    ensures
        order::stably_sorted::<String, Seq<Seq<char>>>(
            followers(list@),
            sourced(
                source_name2pkgid.keys(),
                lazy_registration::trigger_map(*source_name2pkgid),
                lazy_registration::target_map(*source_target2pkgid),
            ),
        ),
{
    let ghost names = source_name2pkgid.keys();
    let ghost sources = lazy_registration::trigger_map(*source_name2pkgid);
    let ghost targets = lazy_registration::target_map(*source_target2pkgid);
    let mut list: Vec<(String, Vec<String>)> = Vec::new();
    let n: usize = source_name2pkgid.len();
    let mut i: usize = 0;
    proof {
        assert(names.take(0) =~= Seq::<Seq<char>>::empty());
        assert(followers(list@) =~= Seq::<(Seq<char>, Seq<Seq<char>>)>::empty());
    }
    while i < n
        invariant
            i <= n,
            source_name2pkgid.wf(),
            source_target2pkgid.wf(),
            names == source_name2pkgid.keys(),
            n == names.len(),
            sources == lazy_registration::trigger_map(*source_name2pkgid),
            targets == lazy_registration::target_map(*source_target2pkgid),
            order::stably_sorted::<String, Seq<Seq<char>>>(
                followers(list@),
                sourced(names.take(i as int), sources, targets),
            ),
        decreases n - i,
    {
        let name = source_name2pkgid.key_at(i);
        proof {
            assert(names.take(i as int + 1).drop_last() =~= names.take(i as int));
            assert(names.take(i as int + 1).last() == name@);
            source_name2pkgid.lemma_at(i as int);
            assert(source_target2pkgid.has(name@) <==> targets.contains_key(name@));
        }
        if let Some(target) = source_target2pkgid.get(name) {
            let ids = duplicate_strings(source_name2pkgid.value_at(i));
            insert_follower(
                &mut list,
                target.clone(),
                ids,
                Ghost(sourced(names.take(i as int), sources, targets)),
            );
        }
        i = i + 1;
    }
    assert(names.take(i as int) =~= names);
    list
}

/// Whether a package is loaded for a Lua module.
pub open spec fn loads_for(m: Map<Seq<char>, Seq<Seq<char>>>, luam: Seq<char>, id: Seq<char>) -> bool {
    m.contains_key(luam) && m[luam].contains(id)
}

/// The modules of each package.
pub open spec fn is_inverse(
    inverse: SortedMap<String, SortedSet<String>>,
    m: Map<Seq<char>, Seq<Seq<char>>>,
) -> bool {
    &&& inverse.wf()
    &&& forall|id: Seq<char>| #[trigger]
        inverse.has(id) ==> inverse.at(id).wf() && exists|luam: Seq<char>| #[trigger]
            loads_for(m, luam, id)
    &&& forall|luam: Seq<char>, id: Seq<char>| #[trigger]
        loads_for(m, luam, id) ==> inverse.has(id)
    &&& forall|luam: Seq<char>, id: Seq<char>|
        inverse.has(id) ==> (#[trigger] inverse.at(id).has(luam) <==> loads_for(m, luam, id))
}

fn add_module(
    inverse: &mut SortedMap<String, SortedSet<String>>,
    id: &String,
    luam: &String,
)
    requires
        old(inverse).wf(),
        forall|k: Seq<char>| #[trigger] old(inverse).has(k) ==> old(inverse).at(k).wf(),
    ensures
        final(inverse).wf(),
        forall|k: Seq<char>| #[trigger] final(inverse).has(k) ==> final(inverse).at(k).wf(),
        forall|k: Seq<char>| #[trigger]
            final(inverse).has(k) <==> old(inverse).has(k) || k == id@,
        forall|k: Seq<char>| k != id@ && #[trigger] old(inverse).has(k) ==> final(inverse).at(k)
            == old(inverse).at(k),
        forall|l: Seq<char>| #[trigger]
            final(inverse).at(id@).has(l) <==> (old(inverse).has(id@) && old(inverse).at(
                id@,
            ).has(l)) || l == luam@,
{
    let ghost before = *inverse;
    let mut set = match inverse.remove(id) {
        Some(set) => set,
        None => SortedSet::new(),
    };
    let ghost taken = set;
    let ghost between = *inverse;
    set.insert(luam.clone());
    let ghost done = set;
    inverse.insert(id.clone(), set);
    proof {
        assert forall|k: Seq<char>| #[trigger] inverse.has(k) <==> before.has(k) || k == id@ by {
            assert(between.has(k) <==> before.has(k) && k != id@);
        }
        assert forall|k: Seq<char>| k != id@ && #[trigger] before.has(k) implies inverse.at(k)
            == before.at(k) by {
            assert(between.has(k));
        }
        assert forall|k: Seq<char>| #[trigger] inverse.has(k) implies inverse.at(k).wf() by {
            if k != id@ {
                assert(before.has(k));
            }
        }
        assert(inverse.at(id@) == done);
    }
}

/// The modules that each package is loaded for.
pub fn modules_by_package(luam2pkgid: &SortedMap<String, Vec<String>>) -> (inverse: SortedMap<
    String,
    SortedSet<String>,
>)
    requires
        luam2pkgid.wf(),
    ensures
        is_inverse(inverse, lazy_registration::trigger_map(*luam2pkgid)),
{
    let ghost m = lazy_registration::trigger_map(*luam2pkgid);
    let mut inverse: SortedMap<String, SortedSet<String>> = SortedMap::new();
    let n: usize = luam2pkgid.len();
    let ghost mut seen: Map<Seq<char>, Seq<Seq<char>>> = Map::empty();
    let mut i: usize = 0;
    while i < n
        invariant
            i <= n,
            luam2pkgid.wf(),
            m == lazy_registration::trigger_map(*luam2pkgid),
            n == luam2pkgid.keys().len(),
            is_inverse(inverse, seen),
            forall|k: Seq<char>| #[trigger]
                seen.contains_key(k) <==> exists|j: int|
                    0 <= j < i && (#[trigger] luam2pkgid.keys()[j]) == k,
            forall|k: Seq<char>| #[trigger] seen.contains_key(k) ==> m.contains_key(k) && seen[k] == m[k],
        decreases n - i,
    {
        let luam = luam2pkgid.key_at(i);
        let ids = luam2pkgid.value_at(i);
        let ghost all = text::strings(ids@);
        proof {
            luam2pkgid.lemma_at(i as int);
            order::lemma_ascending_distinct::<String>(luam2pkgid.keys());
            assert(!seen.contains_key(luam@));
            assert(m[luam@] == all);
        }
        let ghost base = seen;
        let mut j: usize = 0;
        proof {
            seen = base.insert(luam@, all.take(0));
            assert forall|l: Seq<char>, id: Seq<char>| #[trigger]
                loads_for(seen, l, id) == loads_for(base, l, id) by {}
            assert(is_inverse(inverse, seen)) by {
                assert forall|id: Seq<char>| #[trigger] inverse.has(id) implies exists|l: Seq<char>| #[trigger]
                    loads_for(seen, l, id) by {
                    let l = choose|l: Seq<char>| #[trigger] loads_for(base, l, id);
                    assert(loads_for(seen, l, id));
                }
            }
        }
        while j < ids.len()
            invariant
                j <= ids@.len(),
                all == text::strings(ids@),
                !base.contains_key(luam@),
                seen == base.insert(luam@, all.take(j as int)),
                is_inverse(inverse, seen),
            decreases ids@.len() - j,
        {
            let ghost before = inverse;
            let ghost old_seen = seen;
            let ghost id = ids@[j as int]@;
            add_module(&mut inverse, &ids[j], luam);
            proof {
                seen = base.insert(luam@, all.take(j as int + 1));
                assert(all.take(j as int + 1) =~= all.take(j as int).push(id));
                assert forall|l: Seq<char>, k: Seq<char>| #[trigger]
                    loads_for(seen, l, k) <==> loads_for(old_seen, l, k) || (l == luam@ && k == id) by {
                    order::lemma_contains_push(all.take(j as int), id, k);
                }
                assert(loads_for(seen, luam@, id));
                assert forall|k: Seq<char>| #[trigger] inverse.has(k) implies exists|l: Seq<char>| #[trigger]
                    loads_for(seen, l, k) by {
                    if k == id {
                        assert(loads_for(seen, luam@, k));
                    } else {
                        assert(before.has(k));
                        let l = choose|l: Seq<char>| #[trigger] loads_for(old_seen, l, k);
                        assert(loads_for(seen, l, k));
                    }
                }
                assert forall|l: Seq<char>, k: Seq<char>| #[trigger]
                    loads_for(seen, l, k) implies inverse.has(k) by {
                    if loads_for(old_seen, l, k) {
                        assert(before.has(k));
                    }
                }
                assert forall|l: Seq<char>, k: Seq<char>| inverse.has(k) implies (#[trigger] inverse.at(
                    k,
                ).has(l) <==> loads_for(seen, l, k)) by {
                    assert(loads_for(seen, l, k) <==> loads_for(old_seen, l, k) || (l == luam@ && k == id));
                    if before.has(k) {
                        assert(before.at(k).has(l) <==> loads_for(old_seen, l, k));
                    } else {
                        assert(!loads_for(old_seen, l, k));
                    }
                }
            }
            j = j + 1;
        }
        proof {
            assert(all.take(j as int) =~= all);
            assert forall|k: Seq<char>| #[trigger]
                seen.contains_key(k) <==> exists|x: int|
                    0 <= x < i + 1 && (#[trigger] luam2pkgid.keys()[x]) == k by {
                assert(base.contains_key(k) <==> exists|x: int|
                    0 <= x < i && (#[trigger] luam2pkgid.keys()[x]) == k);
                if k == luam@ {
                    assert(luam2pkgid.keys()[i as int] == k);
                }
            }
        }
        i = i + 1;
    }
    proof {
        assert(seen =~= m) by {
            assert forall|k: Seq<char>| #[trigger] m.contains_key(k) implies seen.contains_key(k) by {
                let x = luam2pkgid.keys().index_of(k);
                assert(luam2pkgid.keys()[x] == k);
            }
        }
    }
    inverse
}

/// What the generated files are rendered from, besides the triggers themselves.
pub struct TemplateInputs {
    /// The scripts around the load of packages.
    pub hooks: Vec<HookScripts>,
    /// The packages to load at startup, in order.
    pub startup_plugins: Vec<String>,
    /// The scripts to run at startup, in order.
    pub startup_scripts: Vec<String>,
    /// The packages to load with each package.
    pub source2pkgid: Vec<(String, Vec<String>)>,
    /// The Lua modules of each package.
    pub pkgid2luam: SortedMap<String, SortedSet<String>>,
}

/// What the generated files of a registration are rendered from.
pub open spec fn is_inputs(t: TemplateInputs, r: LazyRegistration) -> bool {
    &&& hook_views(t.hooks@) == hooks(r@.scripts)
    &&& is_startup_plugins(text::strings(t.startup_plugins@), r@.scripts)
    &&& is_startup_scripts(text::strings(t.startup_scripts@), r@.scripts)
    &&& order::stably_sorted::<String, Seq<Seq<char>>>(
        followers(t.source2pkgid@),
        sourced(r.source_name2pkgid.keys(), r@.sources, r@.targets),
    )
    &&& is_inverse(t.pkgid2luam, r@.luams)
}

impl LazyRegistration {
    /// What the generated files are rendered from; nothing if nothing is registered.
    pub fn template_inputs(&self) -> (inputs: Option<TemplateInputs>)
        requires
            self.wf(),
        ensures
            inputs is None <==> lazy_registration::registers_nothing(self@),
            inputs matches Some(t) ==> is_inputs(t, *self),
    {
        if self.is_empty() {
            return None;
        }
        Some(
            TemplateInputs {
                hooks: hook_scripts(&self.pkgid2scripts),
                startup_plugins: startup_plugins(&self.pkgid2scripts),
                startup_scripts: startup_scripts(&self.pkgid2scripts),
                source2pkgid: build_source2pkgid(
                    &self.source_name2pkgid,
                    &self.source_target2pkgid,
                ),
                pkgid2luam: modules_by_package(&self.luam2pkgid),
            },
        )
    }

    /// The packages of each file type.
    pub fn ft_index_pairs(&self) -> (pairs: SortedMap<String, Vec<String>>)
        requires
            self.wf(),
        ensures
            pairs.wf(),
            pairs.keys() == self.ft2pkgid.keys(),
            lazy_registration::trigger_map(pairs) == self@.fts,
    {
        let mut entries: Vec<(String, Vec<String>)> = Vec::new();
        let n: usize = self.ft2pkgid.len();
        let mut i: usize = 0;
        while i < n
            invariant
                i <= n,
                n == self.ft2pkgid.keys().len(),
                self.wf(),
                entries@.len() == i,
                forall|k: int|
                    0 <= k < i ==> (#[trigger] entries@[k]).0@ == self.ft2pkgid.keys()[k]
                        && text::strings(entries@[k].1@) == text::strings(
                        self.ft2pkgid.values()[k]@,
                    ),
            decreases n - i,
        {
            entries.push(
                (self.ft2pkgid.key_at(i).clone(), duplicate_strings(self.ft2pkgid.value_at(i))),
            );
            i = i + 1;
        }
        let pairs = SortedMap { entries };
        proof {
            order::lemma_fields(pairs);
            assert(pairs.keys() =~= self.ft2pkgid.keys());
            let m = lazy_registration::trigger_map(pairs);
            assert(m =~= self@.fts) by {
                assert forall|k: Seq<char>| m.contains_key(k) implies m[k] == self@.fts[k] by {
                    let j = pairs.keys().index_of(k);
                    assert(pairs.keys()[j] == k);
                    assert(pairs.values()[j] == pairs.entries@[j].1);
                }
            }
        }
        pairs
    }

    /// The packages of an autocommand event; none if it has none.
    pub fn event_ids(&self, event: &String) -> (ids: Vec<String>)
        requires
            self.wf(),
        ensures
            text::strings(ids@) == lazy_registration::ids_at(self@.events, event@),
    {
        match self.event2pkgid.get(event) {
            Some(ids) => {
                assert(self@.events.contains_key(event@));
                duplicate_strings(ids)
            },
            None => {
                let ids: Vec<String> = Vec::new();
                assert(text::strings(ids@) =~= Seq::<Seq<char>>::empty());
                ids
            },
        }
    }
}

} // verus!
