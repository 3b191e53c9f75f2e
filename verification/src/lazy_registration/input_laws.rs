//! What the inputs of the generated Lua files hold of a registration.

use crate::lazy_registration::inputs;
use crate::lazy_registration::inputs::{Hook, TemplateInputs};
use crate::lazy_registration::{LazyRegistration, ScriptsItem};
use crate::order;
use crate::text;
use vstd::prelude::*;

verus! {

/// The hook holds the scripts of a registered package, and at least one of them.
pub open spec fn hook_of(items: Seq<ScriptsItem>, h: Hook) -> bool {
    exists|i: int|
        0 <= i < items.len() && h.pkgid == (#[trigger] items[i]).pkgid && h.before
            == items[i].script.lua_before && h.after == items[i].script.lua_after && (
        h.before.len() > 0 || h.after.len() > 0)
}

proof fn lemma_hooks(items: Seq<ScriptsItem>)
    ensures
        forall|i: int|
            0 <= i < items.len() && ((#[trigger] items[i]).script.lua_before.len() > 0
                || items[i].script.lua_after.len() > 0) ==> inputs::hooks(items).contains(
                Hook {
                    pkgid: items[i].pkgid,
                    before: items[i].script.lua_before,
                    after: items[i].script.lua_after,
                },
            ),
        forall|k: int|
            0 <= k < inputs::hooks(items).len() ==> hook_of(
                items,
                #[trigger] inputs::hooks(items)[k],
            ),
    decreases items.len(),
{
    if items.len() > 0 {
        let front = items.drop_last();
        let last = items.last();
        let all = inputs::hooks(items);
        let few = inputs::hooks(front);
        lemma_hooks(front);
        assert(items[items.len() - 1] == last);
        assert forall|i: int|
            0 <= i < items.len() && ((#[trigger] items[i]).script.lua_before.len() > 0
                || items[i].script.lua_after.len() > 0) implies all.contains(
            Hook {
                pkgid: items[i].pkgid,
                before: items[i].script.lua_before,
                after: items[i].script.lua_after,
            },
        ) by {
            let h = Hook {
                pkgid: items[i].pkgid,
                before: items[i].script.lua_before,
                after: items[i].script.lua_after,
            };
            if i < front.len() {
                assert(front[i] == items[i]);
                let k = few.index_of(h);
                assert(few.contains(h));
                assert(all[k] == h);
            } else {
                assert(all.last() == h);
            }
        }
        assert forall|k: int| 0 <= k < all.len() implies hook_of(items, #[trigger] all[k]) by {
            if k < few.len() {
                let h = few[k];
                assert(all[k] == h);
                assert(hook_of(front, h));
                let i = choose|i: int|
                    0 <= i < front.len() && h.pkgid == (#[trigger] front[i]).pkgid && h.before
                        == front[i].script.lua_before && h.after == front[i].script.lua_after;
                assert(items[i] == front[i]);
            } else {
                assert(all[k] == all.last());
                assert(items[items.len() - 1] == last);
            }
        }
    }
}

/// Every script that a registered package runs before or after its load stands in a hook of this
/// package, before those that it runs after in their list and those that it runs before in theirs.
pub proof fn law_every_script_has_a_hook(
    t: TemplateInputs,
    r: LazyRegistration,
    i: int,
    script: Seq<char>,
)
    requires
        inputs::is_inputs(t, r),
        0 <= i < r@.scripts.len(),
    ensures
        r@.scripts[i].script.lua_before.contains(script) ==> exists|k: int|
            0 <= k < t.hooks@.len() && (#[trigger] t.hooks@[k])@.pkgid == r@.scripts[i].pkgid
                && t.hooks@[k]@.before.contains(script),
        r@.scripts[i].script.lua_after.contains(script) ==> exists|k: int|
            0 <= k < t.hooks@.len() && (#[trigger] t.hooks@[k])@.pkgid == r@.scripts[i].pkgid
                && t.hooks@[k]@.after.contains(script),
{
    let items = r@.scripts;
    let item = items[i];
    let all = inputs::hooks(items);
    lemma_hooks(items);
    if item.script.lua_before.contains(script) || item.script.lua_after.contains(script) {
        let h = Hook {
            pkgid: item.pkgid,
            before: item.script.lua_before,
            after: item.script.lua_after,
        };
        assert(all.contains(h));
        let k = all.index_of(h);
        assert(inputs::hook_views(t.hooks@)[k] == h);
        assert(t.hooks@[k]@ == h);
    }
}

/// A hook holds the scripts of one registered package, and at least one of them.
pub proof fn law_hooks_are_registered(t: TemplateInputs, r: LazyRegistration, k: int)
    requires
        inputs::is_inputs(t, r),
        0 <= k < t.hooks@.len(),
    ensures
        hook_of(r@.scripts, t.hooks@[k]@),
{
    lemma_hooks(r@.scripts);
    assert(inputs::hook_views(t.hooks@)[k] == t.hooks@[k]@);
    assert(inputs::hooks(r@.scripts)[k] == t.hooks@[k]@);
}

proof fn lemma_started(items: Seq<ScriptsItem>)
    ensures
        forall|o: int, id: Seq<char>| #[trigger]
            inputs::started(items).contains((o, id)) <==> exists|i: int|
                0 <= i < items.len() && (#[trigger] items[i]).start && items[i].order == o
                    && items[i].pkgid == id,
    decreases items.len(),
{
    if items.len() > 0 {
        let front = items.drop_last();
        let last = items.last();
        lemma_started(front);
        assert(items[items.len() - 1] == last);
        assert forall|o: int, id: Seq<char>| #[trigger]
            inputs::started(items).contains((o, id)) <==> exists|i: int|
                0 <= i < items.len() && (#[trigger] items[i]).start && items[i].order == o
                    && items[i].pkgid == id by {
            order::lemma_contains_push(
                inputs::started(front),
                (last.order, last.pkgid),
                (o, id),
            );
            assert(inputs::started(front).contains((o, id)) <==> exists|i: int|
                0 <= i < front.len() && (#[trigger] front[i]).start && front[i].order == o
                    && front[i].pkgid == id);
            if exists|i: int|
                0 <= i < front.len() && (#[trigger] front[i]).start && front[i].order == o
                    && front[i].pkgid == id {
                let i = choose|i: int|
                    0 <= i < front.len() && (#[trigger] front[i]).start && front[i].order == o
                        && front[i].pkgid == id;
                assert(items[i] == front[i]);
            }
            if exists|i: int|
                0 <= i < items.len() && (#[trigger] items[i]).start && items[i].order == o
                    && items[i].pkgid == id {
                let i = choose|i: int|
                    0 <= i < items.len() && (#[trigger] items[i]).start && items[i].order == o
                        && items[i].pkgid == id;
                if i < front.len() {
                    assert(front[i] == items[i]);
                }
            }
        }
    }
}

/// A registered package that is loaded at startup, with its order.
pub open spec fn starts_at(items: Seq<ScriptsItem>, id: Seq<char>, o: int) -> bool {
    exists|i: int|
        0 <= i < items.len() && (#[trigger] items[i]).start && items[i].pkgid == id
            && items[i].order == o
}

/// The first package starts no later than the second, by the order that they ask for.
pub open spec fn start_in_turn(items: Seq<ScriptsItem>, a: Seq<char>, b: Seq<char>) -> bool {
    exists|o: int, p: int|
        o <= p && #[trigger] starts_at(items, a, o) && #[trigger] starts_at(items, b, p)
}

/// The packages loaded at startup are exactly the registered ones that start, and they are loaded
/// in the order that they ask for.
pub proof fn law_startup_plugins(t: TemplateInputs, r: LazyRegistration)
    requires
        inputs::is_inputs(t, r),
    ensures
        forall|i: int|
            0 <= i < r@.scripts.len() && (#[trigger] r@.scripts[i]).start ==> text::strings(
                t.startup_plugins@,
            ).contains(r@.scripts[i].pkgid),
        forall|i: int, j: int|
            0 <= i <= j < t.startup_plugins@.len() ==> start_in_turn(
                r@.scripts,
                (#[trigger] t.startup_plugins@[i])@,
                (#[trigger] t.startup_plugins@[j])@,
            ),
{
    let items = r@.scripts;
    let ids = text::strings(t.startup_plugins@);
    assert(exists|keys: Seq<(int, Seq<char>)>| #[trigger]
        order::sorted_from::<(usize, String)>(keys, inputs::started(items)) && ids.len()
            == keys.len() && forall|n: int|
            0 <= n < keys.len() ==> (#[trigger] ids[n]) == keys[n].1);
    let keys = choose|keys: Seq<(int, Seq<char>)>| #[trigger]
        order::sorted_from::<(usize, String)>(keys, inputs::started(items)) && ids.len()
            == keys.len() && forall|n: int|
            0 <= n < keys.len() ==> (#[trigger] ids[n]) == keys[n].1;
    lemma_started(items);
    assert forall|i: int| 0 <= i < items.len() && (#[trigger] items[i]).start implies ids.contains(
        items[i].pkgid,
    ) by {
        let key = (items[i].order, items[i].pkgid);
        assert(inputs::started(items).contains(key));
        vstd::seq_lib::to_multiset_contains(inputs::started(items), key);
        vstd::seq_lib::to_multiset_contains(keys, key);
        let k = keys.index_of(key);
        assert(ids[k] == items[i].pkgid);
    }
    assert forall|i: int, j: int| 0 <= i <= j < t.startup_plugins@.len() implies start_in_turn(
        items,
        (#[trigger] t.startup_plugins@[i])@,
        (#[trigger] t.startup_plugins@[j])@,
    ) by {
        let a = keys[i];
        let b = keys[j];
        assert(ids[i] == a.1 && ids[j] == b.1);
        assert(ids[i] == t.startup_plugins@[i]@ && ids[j] == t.startup_plugins@[j]@);
        assert(keys.contains(a) && keys.contains(b));
        vstd::seq_lib::to_multiset_contains(inputs::started(items), a);
        vstd::seq_lib::to_multiset_contains(keys, a);
        vstd::seq_lib::to_multiset_contains(inputs::started(items), b);
        vstd::seq_lib::to_multiset_contains(keys, b);
        assert(inputs::started(items).contains((a.0, a.1)));
        assert(inputs::started(items).contains((b.0, b.1)));
        assert(starts_at(items, t.startup_plugins@[i]@, a.0));
        assert(starts_at(items, t.startup_plugins@[j]@, b.0));
    }
}

proof fn lemma_start_scripts(items: Seq<ScriptsItem>, o: int, id: Seq<char>, content: Seq<char>)
    ensures
        inputs::start_scripts(items).contains((o, (id, content))) <==> exists|i: int|
            0 <= i < items.len() && (#[trigger] items[i]).order == o && items[i].pkgid == id
                && items[i].script.lua_start.contains(content),
    decreases items.len(),
{
    if items.len() > 0 {
        let front = items.drop_last();
        let last = items.last();
        let few = inputs::start_scripts(front);
        let own = inputs::item_scripts(last);
        let all = inputs::start_scripts(items);
        let key = (o, (id, content));
        lemma_start_scripts(front, o, id, content);
        assert(items[items.len() - 1] == last);
        if all.contains(key) {
            let k = all.index_of(key);
            if k < few.len() {
                assert(few[k] == key);
                let i = choose|i: int|
                    0 <= i < front.len() && (#[trigger] front[i]).order == o && front[i].pkgid == id
                        && front[i].script.lua_start.contains(content);
                assert(items[i] == front[i]);
            } else {
                assert(own[k - few.len()] == key);
                assert(last.script.lua_start[k - few.len()] == content);
            }
        }
        if exists|i: int|
            0 <= i < items.len() && (#[trigger] items[i]).order == o && items[i].pkgid == id
                && items[i].script.lua_start.contains(content) {
            let i = choose|i: int|
                0 <= i < items.len() && (#[trigger] items[i]).order == o && items[i].pkgid == id
                    && items[i].script.lua_start.contains(content);
            if i < front.len() {
                assert(front[i] == items[i]);
                let k = few.index_of(key);
                assert(all[k] == key);
            } else {
                let k = last.script.lua_start.index_of(content);
                assert(own[k] == key);
                assert(all[few.len() + k] == key);
            }
        }
    }
}

/// A registered package that has the startup script, with its order.
pub open spec fn runs_at(items: Seq<ScriptsItem>, content: Seq<char>, o: int) -> bool {
    exists|i: int|
        0 <= i < items.len() && (#[trigger] items[i]).script.lua_start.contains(content)
            && items[i].order == o
}

/// The first script runs no later than the second, by the order that their packages ask for.
pub open spec fn run_in_turn(items: Seq<ScriptsItem>, a: Seq<char>, b: Seq<char>) -> bool {
    exists|o: int, p: int|
        o <= p && #[trigger] runs_at(items, a, o) && #[trigger] runs_at(items, b, p)
}

/// The scripts that run at startup are exactly the startup scripts of the registered packages, and
/// they run in the order that the packages ask for.
pub proof fn law_startup_scripts(t: TemplateInputs, r: LazyRegistration)
    requires
        inputs::is_inputs(t, r),
    ensures
        forall|i: int, content: Seq<char>|
            0 <= i < r@.scripts.len() && #[trigger] r@.scripts[i].script.lua_start.contains(content)
                ==> text::strings(t.startup_scripts@).contains(content),
        forall|i: int, j: int|
            0 <= i <= j < t.startup_scripts@.len() ==> run_in_turn(
                r@.scripts,
                (#[trigger] t.startup_scripts@[i])@,
                (#[trigger] t.startup_scripts@[j])@,
            ),
{
    let items = r@.scripts;
    let contents = text::strings(t.startup_scripts@);
    let all = inputs::start_scripts(items);
    assert(exists|keys: Seq<(int, (Seq<char>, Seq<char>))>| #[trigger]
        order::sorted_from::<(usize, (String, String))>(keys, all) && contents.len() == keys.len()
            && forall|n: int| 0 <= n < keys.len() ==> (#[trigger] contents[n]) == (keys[n].1).1);
    let keys = choose|keys: Seq<(int, (Seq<char>, Seq<char>))>| #[trigger]
        order::sorted_from::<(usize, (String, String))>(keys, all) && contents.len() == keys.len()
            && forall|n: int| 0 <= n < keys.len() ==> (#[trigger] contents[n]) == (keys[n].1).1;
    assert forall|i: int, content: Seq<char>|
        0 <= i < items.len() && #[trigger] items[i].script.lua_start.contains(
            content,
        ) implies contents.contains(content) by {
        let key = (items[i].order, (items[i].pkgid, content));
        lemma_start_scripts(items, items[i].order, items[i].pkgid, content);
        assert(all.contains(key));
        vstd::seq_lib::to_multiset_contains(all, key);
        vstd::seq_lib::to_multiset_contains(keys, key);
        let k = keys.index_of(key);
        assert(contents[k] == content);
    }
    assert forall|i: int, j: int| 0 <= i <= j < t.startup_scripts@.len() implies run_in_turn(
        items,
        (#[trigger] t.startup_scripts@[i])@,
        (#[trigger] t.startup_scripts@[j])@,
    ) by {
        let a = keys[i];
        let b = keys[j];
        assert(contents[i] == (a.1).1 && contents[j] == (b.1).1);
        assert(contents[i] == t.startup_scripts@[i]@ && contents[j] == t.startup_scripts@[j]@);
        assert(keys.contains(a) && keys.contains(b));
        vstd::seq_lib::to_multiset_contains(all, a);
        vstd::seq_lib::to_multiset_contains(keys, a);
        vstd::seq_lib::to_multiset_contains(all, b);
        vstd::seq_lib::to_multiset_contains(keys, b);
        lemma_start_scripts(items, a.0, (a.1).0, (a.1).1);
        lemma_start_scripts(items, b.0, (b.1).0, (b.1).1);
        assert(runs_at(items, t.startup_scripts@[i]@, a.0));
        assert(runs_at(items, t.startup_scripts@[j]@, b.0));
    }
}

proof fn lemma_with_key_contains<M, V>(list: Seq<(M, V)>, x: (M, V))
    ensures
        order::with_key(list, x.0).contains(x) <==> list.contains(x),
    decreases list.len(),
{
    reveal(Seq::filter);
    if list.len() > 0 {
        let front = list.drop_last();
        lemma_with_key_contains(front, x);
        assert(list =~= front.push(list.last()));
        order::lemma_contains_push(front, list.last(), x);
        order::lemma_contains_push(order::with_key(front, x.0), list.last(), x);
    }
}

proof fn lemma_sourced(
    names: Seq<Seq<char>>,
    sources: Map<Seq<char>, Seq<Seq<char>>>,
    targets: Map<Seq<char>, Seq<char>>,
    x: (Seq<char>, Seq<Seq<char>>),
)
    ensures
        inputs::sourced(names, sources, targets).contains(x) <==> exists|name: Seq<char>| #[trigger]
            names.contains(name) && targets.contains_key(name) && x == (
            targets[name],
            sources[name],
        ),
    decreases names.len(),
{
    if names.len() > 0 {
        let front = names.drop_last();
        let last = names.last();
        lemma_sourced(front, sources, targets, x);
        assert(names =~= front.push(last));
        assert forall|name: Seq<char>| #[trigger] names.contains(name) <==> front.contains(name)
            || name == last by {
            order::lemma_contains_push(front, last, name);
        }
        order::lemma_contains_push(
            inputs::sourced(front, sources, targets),
            (targets[last], sources[last]),
            x,
        );
        assert(names.contains(last));
        if exists|name: Seq<char>| #[trigger]
            front.contains(name) && targets.contains_key(name) && x == (
            targets[name],
            sources[name],
        ) {
            let name = choose|name: Seq<char>| #[trigger]
                front.contains(name) && targets.contains_key(name) && x == (
                targets[name],
                sources[name],
            );
            assert(names.contains(name));
        }
    }
}

/// With a package are loaded exactly the packages that are to be sourced with a plugin of it.
pub proof fn law_loaded_with(
    t: TemplateInputs,
    r: LazyRegistration,
    target: Seq<char>,
    ids: Seq<Seq<char>>,
)
    requires
        inputs::is_inputs(t, r),
        r.wf(),
    ensures
        (exists|k: int|
            0 <= k < t.source2pkgid@.len() && (#[trigger] t.source2pkgid@[k]).0@ == target
                && text::strings(t.source2pkgid@[k].1@) == ids) <==> exists|name: Seq<char>|
            #[trigger]
            r@.sources.contains_key(name) && r@.targets.contains_key(name) && r@.targets[name]
                == target && r@.sources[name] == ids,
{
    let x = (target, ids);
    let list = inputs::followers(t.source2pkgid@);
    let names = r.source_name2pkgid.keys();
    let wanted = inputs::sourced(names, r@.sources, r@.targets);
    lemma_with_key_contains(list, x);
    lemma_with_key_contains(wanted, x);
    lemma_sourced(names, r@.sources, r@.targets, x);
    assert forall|name: Seq<char>| #[trigger] r@.sources.contains_key(name) <==> names.contains(
        name,
    ) by {}
    if list.contains(x) {
        let k = list.index_of(x);
        assert(list[k] == x);
        assert(t.source2pkgid@[k].0@ == target);
        let name = choose|name: Seq<char>| #[trigger]
            names.contains(name) && r@.targets.contains_key(name) && x == (
            r@.targets[name],
            r@.sources[name],
        );
        assert(r@.sources.contains_key(name));
    }
    if exists|k: int|
        0 <= k < t.source2pkgid@.len() && (#[trigger] t.source2pkgid@[k]).0@ == target
            && text::strings(t.source2pkgid@[k].1@) == ids {
        let k = choose|k: int|
            0 <= k < t.source2pkgid@.len() && (#[trigger] t.source2pkgid@[k]).0@ == target
                && text::strings(t.source2pkgid@[k].1@) == ids;
        assert(list[k] == x);
    }
    if exists|name: Seq<char>| #[trigger]
        r@.sources.contains_key(name) && r@.targets.contains_key(name) && r@.targets[name] == target
            && r@.sources[name] == ids {
        let name = choose|name: Seq<char>| #[trigger]
            r@.sources.contains_key(name) && r@.targets.contains_key(name) && r@.targets[name]
                == target && r@.sources[name] == ids;
        assert(names.contains(name));
    }
}

/// The modules of a package are exactly those that it is loaded for.
pub proof fn law_modules_of_packages(
    t: TemplateInputs,
    r: LazyRegistration,
    luam: Seq<char>,
    id: Seq<char>,
)
    requires
        inputs::is_inputs(t, r),
    ensures
        t.pkgid2luam.has(id) && t.pkgid2luam.at(id).has(luam) <==> r@.luams.contains_key(luam)
            && r@.luams[luam].contains(id),
{
    assert(inputs::loads_for(r@.luams, luam, id) <==> r@.luams.contains_key(luam)
        && r@.luams[luam].contains(id));
}

} // verus!
