//! What merging keeps.

use crate::config;
use crate::files;
use crate::files::{laws, union};
use crate::loaded;
use crate::loaded::Plugin;
use crate::merge;
use crate::order;
use crate::path::Part;
use vstd::prelude::*;

verus! {

/// Some plugin has the property.
pub open spec fn some(list: Seq<Plugin>, has: spec_fn(Plugin) -> bool) -> bool {
    exists|i: int| 0 <= i < list.len() && has(#[trigger] list[i])
}

/// Of plugins in order, a combination is in order, and has the property if and only if one of its
/// parts has it.
spec fn adds_up(has: spec_fn(Plugin) -> bool, ok: spec_fn(Plugin) -> bool) -> bool {
    forall|a: Plugin, b: Plugin|
        ok(a) && ok(b) ==> has(#[trigger] loaded::combined(a, b)) == (has(a) || has(b)) && ok(
            loaded::combined(a, b),
        )
}

/// All plugins are in order.
spec fn all_ok(list: Seq<Plugin>, ok: spec_fn(Plugin) -> bool) -> bool {
    forall|i: int| 0 <= i < list.len() ==> ok(#[trigger] list[i])
}

proof fn lemma_some_insert(list: Seq<Plugin>, at: int, p: Plugin, has: spec_fn(Plugin) -> bool)
    requires
        0 <= at <= list.len(),
    ensures
        some(list.insert(at, p), has) == (some(list, has) || has(p)),
{
    let more = list.insert(at, p);
    if some(more, has) {
        let i = choose|i: int| 0 <= i < more.len() && has(#[trigger] more[i]);
        if i < at {
            assert(has(list[i]));
        } else if i > at {
            assert(has(list[i - 1]));
        }
    }
    if some(list, has) {
        let i = choose|i: int| 0 <= i < list.len() && has(#[trigger] list[i]);
        if i < at {
            assert(has(more[i]));
        } else {
            assert(has(more[i + 1]));
        }
    }
    if has(p) {
        assert(has(more[at]));
    }
}

proof fn lemma_some_remove(list: Seq<Plugin>, at: int, has: spec_fn(Plugin) -> bool)
    requires
        0 <= at < list.len(),
    ensures
        some(list, has) == (some(list.remove(at), has) || has(list[at])),
{
    lemma_some_insert(list.remove(at), at, list[at], has);
    assert(list.remove(at).insert(at, list[at]) =~= list);
}

proof fn lemma_insertion_point(groups: Seq<Plugin>, p: Plugin)
    ensures
        0 <= merge::insertion_point(groups, p) <= groups.len(),
    decreases groups.len(),
{
    if groups.len() > 0 {
        lemma_insertion_point(groups.drop_last(), p);
    }
}

proof fn lemma_fit(groups: Seq<Plugin>, p: Plugin, from: int)
    requires
        0 <= from <= groups.len(),
    ensures
        merge::first_fit(groups, p, from) matches Some(i) ==> from <= i < groups.len()
            && loaded::combinable(groups[i], p),
    decreases groups.len() - from,
{
    if from < groups.len() && !loaded::combinable(groups[from], p) {
        lemma_fit(groups, p, from + 1);
    }
}

proof fn lemma_joined_some(
    groups: Seq<Plugin>,
    p: Plugin,
    has: spec_fn(Plugin) -> bool,
    ok: spec_fn(Plugin) -> bool,
)
    requires
        adds_up(has, ok),
        all_ok(groups, ok),
        ok(p),
    ensures
        some(merge::joined(groups, p), has) == (some(groups, has) || has(p)),
        all_ok(merge::joined(groups, p), ok),
    decreases groups.len(),
{
    lemma_fit(groups, p, 0);
    match merge::first_fit(groups, p, 0) {
        Some(i) => {
            let both = loaded::combined(groups[i], p);
            assert(ok(groups[i]));
            assert forall|k: int| 0 <= k < groups.remove(i).len() implies ok(
                #[trigger] groups.remove(i)[k],
            ) by {
                assert(groups.remove(i)[k] == groups[if k < i {
                    k
                } else {
                    k + 1
                }]);
            }
            lemma_joined_some(groups.remove(i), both, has, ok);
            lemma_some_remove(groups, i, has);
            assert(has(both) == (has(groups[i]) || has(p)));
        },
        None => {
            lemma_insertion_point(groups, p);
            let at = merge::insertion_point(groups, p);
            lemma_some_insert(groups, at, p, has);
            let more = groups.insert(at, p);
            assert forall|k: int| 0 <= k < more.len() implies ok(#[trigger] more[k]) by {
                if k < at {
                    assert(more[k] == groups[k]);
                } else if k > at {
                    assert(more[k] == groups[k - 1]);
                }
            }
        },
    }
}

proof fn lemma_joined_all_some(
    list: Seq<Plugin>,
    has: spec_fn(Plugin) -> bool,
    ok: spec_fn(Plugin) -> bool,
)
    requires
        adds_up(has, ok),
        all_ok(list, ok),
    ensures
        some(merge::joined_all(list), has) == some(list, has),
        all_ok(merge::joined_all(list), ok),
    decreases list.len(),
{
    if list.len() > 0 {
        assert(forall|i: int| 0 <= i < list.drop_last().len() ==> #[trigger] list.drop_last()[i] == list[i]);
        assert(ok(list[list.len() - 1]));
        lemma_joined_all_some(list.drop_last(), has, ok);
        lemma_joined_some(merge::joined_all(list.drop_last()), list.last(), has, ok);
        let front = list.drop_last();
        lemma_some_insert(front, front.len() as int, list.last(), has);
        assert(front.insert(front.len() as int, list.last()) =~= list);
    }
}

proof fn lemma_same_some(a: Seq<Plugin>, b: Seq<Plugin>, has: spec_fn(Plugin) -> bool)
    requires
        a.to_multiset() == b.to_multiset(),
    ensures
        some(a, has) ==> some(b, has),
{
    if some(a, has) {
        let i = choose|i: int| 0 <= i < a.len() && has(#[trigger] a[i]);
        let p = a[i];
        a.to_multiset_ensures();
        b.to_multiset_ensures();
        assert(a.contains(p));
        assert(a.to_multiset().count(p) > 0);
        assert(b.contains(p));
        let j = b.index_of(p);
        assert(has(b[j]));
    }
}

proof fn lemma_plan_some(
    plugins: Seq<Plugin>,
    plan: Seq<Plugin>,
    has: spec_fn(Plugin) -> bool,
    ok: spec_fn(Plugin) -> bool,
)
    requires
        merge::is_plan(plugins, plan),
        adds_up(has, ok),
        all_ok(plugins, ok),
    ensures
        some(plan, has) == some(plugins, has),
        all_ok(plan, ok),
{
    let sorted = choose|sorted: Seq<Plugin>|
        merge::keys_in_order(sorted) && sorted.to_multiset() == plugins.to_multiset() && plan
            == #[trigger] merge::joined_all(sorted);
    assert(all_ok(sorted, ok)) by {
        sorted.to_multiset_ensures();
        plugins.to_multiset_ensures();
        assert forall|i: int| 0 <= i < sorted.len() implies ok(#[trigger] sorted[i]) by {
            assert(sorted.contains(sorted[i]));
            assert(sorted.to_multiset().count(sorted[i]) > 0);
            assert(plugins.contains(sorted[i]));
            assert(ok(plugins[plugins.index_of(sorted[i])]));
        }
    }
    lemma_joined_all_some(sorted, has, ok);
    lemma_same_some(sorted, plugins, has);
    lemma_same_some(plugins, sorted, has);
}

proof fn lemma_all_more(list: Seq<Seq<char>>, add: Seq<Seq<char>>) -> (more: Seq<Seq<char>>)
    requires
        order::ascending::<String>(list),
    ensures
        order::ascending::<String>(more),
        forall|x: Seq<char>| #[trigger] more.contains(x) <==> list.contains(x) || add.contains(x),
    decreases add.len(),
{
    if add.len() == 0 {
        list
    } else {
        let front = add.drop_last();
        let inner = lemma_all_more(list, front);
        let more = order::lemma_with_member::<String>(inner, add.last());
        assert(add =~= front.push(add.last()));
        assert forall|x: Seq<char>| #[trigger] more.contains(x) <==> list.contains(x)
            || add.contains(x) by {
            order::lemma_contains_push(front, add.last(), x);
            assert(more.contains(x) <==> inner.contains(x) || x == add.last());
        }
        more
    }
}

/// The union of two lists of texts holds what either holds.
pub proof fn law_union_texts(a: Seq<Seq<char>>, b: Seq<Seq<char>>, x: Seq<char>)
    ensures
        order::ascending::<String>(loaded::union_texts(a, b)),
        loaded::union_texts(a, b).contains(x) <==> a.contains(x) || b.contains(x),
{
    let first = lemma_all_more(Seq::empty(), a);
    let all = lemma_all_more(first, b);
    assert(config::united(all, a, b)) by {
        assert forall|s: Seq<char>| #[trigger] all.contains(s) <==> a.contains(s) || b.contains(s) by {
            assert(all.contains(s) <==> first.contains(s) || b.contains(s));
            assert(first.contains(s) <==> Seq::<Seq<char>>::empty().contains(s) || a.contains(s));
        }
    }
    let chosen = loaded::union_texts(a, b);
    assert(config::united(chosen, a, b));
    assert(chosen.contains(x) <==> a.contains(x) || b.contains(x));
}

/// The plugin goes by the name.
pub open spec fn named(name: Seq<char>) -> spec_fn(Plugin) -> bool {
    |p: Plugin| p.source_names.contains(name)
}

/// Merging keeps every name and makes up none.
pub proof fn law_plan_keeps_names(plugins: Seq<Plugin>, plan: Seq<Plugin>, name: Seq<char>)
    requires
        merge::is_plan(plugins, plan),
    ensures
        some(plan, named(name)) == some(plugins, named(name)),
{
    let has = named(name);
    let any = |p: Plugin| true;
    assert forall|a: Plugin, b: Plugin| any(a) && any(b) implies has(
        #[trigger] loaded::combined(a, b),
    ) == (has(a) || has(b)) && any(loaded::combined(a, b)) by {
        law_union_texts(a.source_names, b.source_names, name);
    }
    lemma_plan_some(plugins, plan, has, any);
}

/// The plugin runs the script at startup.
pub open spec fn starts_with(script: Seq<char>) -> spec_fn(Plugin) -> bool {
    |p: Plugin| p.script.lua_start.contains(script)
}

/// The plugin runs the script before it is loaded.
pub open spec fn runs_before(script: Seq<char>) -> spec_fn(Plugin) -> bool {
    |p: Plugin| p.script.lua_before.contains(script)
}

/// The plugin runs the script after it is loaded.
pub open spec fn runs_after(script: Seq<char>) -> spec_fn(Plugin) -> bool {
    |p: Plugin| p.script.lua_after.contains(script)
}

/// Merging keeps every script and makes up none.
pub proof fn law_plan_keeps_scripts(plugins: Seq<Plugin>, plan: Seq<Plugin>, script: Seq<char>)
    requires
        merge::is_plan(plugins, plan),
    ensures
        some(plan, starts_with(script)) == some(plugins, starts_with(script)),
        some(plan, runs_before(script)) == some(plugins, runs_before(script)),
        some(plan, runs_after(script)) == some(plugins, runs_after(script)),
{
    let any = |p: Plugin| true;
    let s = starts_with(script);
    let b4 = runs_before(script);
    let af = runs_after(script);
    assert forall|a: Plugin, b: Plugin| any(a) && any(b) implies s(
        #[trigger] loaded::combined(a, b),
    ) == (s(a) || s(b)) && any(loaded::combined(a, b)) by {
        law_union_texts(a.script.lua_start, b.script.lua_start, script);
    }
    assert forall|a: Plugin, b: Plugin| any(a) && any(b) implies b4(
        #[trigger] loaded::combined(a, b),
    ) == (b4(a) || b4(b)) && any(loaded::combined(a, b)) by {
        law_union_texts(a.script.lua_before, b.script.lua_before, script);
    }
    assert forall|a: Plugin, b: Plugin| any(a) && any(b) implies af(
        #[trigger] loaded::combined(a, b),
    ) == (af(a) || af(b)) && any(loaded::combined(a, b)) by {
        law_union_texts(a.script.lua_after, b.script.lua_after, script);
    }
    lemma_plan_some(plugins, plan, s, any);
    lemma_plan_some(plugins, plan, b4, any);
    lemma_plan_some(plugins, plan, af, any);
}

/// The plugin is kept apart from others.
pub open spec fn apart(p: Plugin) -> bool {
    !p.merge_enabled && !p.is_lazy_registration
}

/// The plugin is this one.
pub open spec fn is_this(q: Plugin) -> spec_fn(Plugin) -> bool {
    |p: Plugin| p == q
}

proof fn lemma_joined_apart(groups: Seq<Plugin>, p: Plugin, q: Plugin)
    requires
        apart(q),
    ensures
        some(merge::joined(groups, p), is_this(q)) == (some(groups, is_this(q)) || p == q),
    decreases groups.len(),
{
    let has = is_this(q);
    lemma_fit(groups, p, 0);
    match merge::first_fit(groups, p, 0) {
        Some(i) => {
            let both = loaded::combined(groups[i], p);
            lemma_joined_apart(groups.remove(i), both, q);
            lemma_some_remove(groups, i, has);
            assert(groups[i] != q && p != q && both != q);
            assert(has(groups[i]) == (groups[i] == q));
        },
        None => {
            lemma_insertion_point(groups, p);
            lemma_some_insert(groups, merge::insertion_point(groups, p), p, has);
            assert(has(p) == (p == q));
        },
    }
}

proof fn lemma_joined_all_apart(list: Seq<Plugin>, q: Plugin)
    requires
        apart(q),
    ensures
        some(merge::joined_all(list), is_this(q)) == some(list, is_this(q)),
    decreases list.len(),
{
    if list.len() > 0 {
        let has = is_this(q);
        let front = list.drop_last();
        lemma_joined_all_apart(front, q);
        lemma_joined_apart(merge::joined_all(front), list.last(), q);
        lemma_some_insert(front, front.len() as int, list.last(), has);
        assert(front.insert(front.len() as int, list.last()) =~= list);
        assert(has(list.last()) == (list.last() == q));
    }
}

/// A plugin that is to be kept apart stays as it is, and merging makes up no such plugin.
pub proof fn law_apart_stays(plugins: Seq<Plugin>, plan: Seq<Plugin>, q: Plugin)
    requires
        merge::is_plan(plugins, plan),
        apart(q),
    ensures
        plan.contains(q) == plugins.contains(q),
{
    let has = is_this(q);
    let sorted = choose|sorted: Seq<Plugin>|
        merge::keys_in_order(sorted) && sorted.to_multiset() == plugins.to_multiset() && plan
            == #[trigger] merge::joined_all(sorted);
    lemma_joined_all_apart(sorted, q);
    lemma_same_some(sorted, plugins, has);
    lemma_same_some(plugins, sorted, has);
    if plan.contains(q) {
        assert(has(plan[plan.index_of(q)]));
        let i = choose|i: int| 0 <= i < plugins.len() && has(#[trigger] plugins[i]);
        assert(plugins[i] == q);
    }
    if plugins.contains(q) {
        assert(has(plugins[plugins.index_of(q)]));
        let i = choose|i: int| 0 <= i < plan.len() && has(#[trigger] plan[i]);
        assert(plan[i] == q);
    }
}

/// The plugin has a file at `q`.
pub open spec fn with_file(q: Seq<Part>) -> spec_fn(Plugin) -> bool {
    |p: Plugin| laws::has_file(p.files, q)
}

/// The plugin lists finitely many entries, each at the path that it is known by and none below a
/// listed directory, and `d` tells its directories from its files.
pub open spec fn in_order(p: Plugin, d: spec_fn(Seq<Part>) -> bool) -> bool {
    &&& p.files.dom().finite()
    &&& files::unblocked(p.files)
    &&& laws::own_paths(p.files)
    &&& laws::agrees(p.files, d)
}

/// Merging keeps every file and makes up none, as long as the plugins agree on what is a
/// directory.
pub proof fn law_plan_keeps_files(
    plugins: Seq<Plugin>,
    plan: Seq<Plugin>,
    d: spec_fn(Seq<Part>) -> bool,
    q: Seq<Part>,
)
    requires
        merge::is_plan(plugins, plan),
        forall|i: int| 0 <= i < plugins.len() ==> in_order(#[trigger] plugins[i], d),
    ensures
        some(plan, with_file(q)) == some(plugins, with_file(q)),
        forall|i: int| 0 <= i < plan.len() ==> in_order(#[trigger] plan[i], d),
{
    let has = with_file(q);
    let ok = |p: Plugin| in_order(p, d);
    assert forall|a: Plugin, b: Plugin| ok(a) && ok(b) implies has(
        #[trigger] loaded::combined(a, b),
    ) == (has(a) || has(b)) && ok(loaded::combined(a, b)) by {
        union::law_union_exists(a.files, b.files);
        laws::lemma_union(
            a.files,
            b.files,
            loaded::map_listing(b.files),
            loaded::union_map(a.files, b.files),
            d,
            q,
        );
    }
    lemma_plan_some(plugins, plan, has, ok);
    assert forall|i: int| 0 <= i < plan.len() implies in_order(#[trigger] plan[i], d) by {
        assert(ok(plan[i]));
    }
}

} // verus!
