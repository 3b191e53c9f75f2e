//! When the order in which plugins are given makes no difference to their plan.

use crate::loaded;
use crate::loaded::Plugin;
use crate::merge;
use vstd::prelude::*;

verus! {

/// The plugins at `i` and behind it have changed places.
pub open spec fn exchanged(list: Seq<Plugin>, i: int) -> Seq<Plugin> {
    list.update(i, list[i + 1]).update(i + 1, list[i])
}

/// The list holds the plugins in key order.
pub open spec fn is_arranged(list: Seq<Plugin>, plugins: Seq<Plugin>) -> bool {
    merge::keys_in_order(list) && list.to_multiset() == plugins.to_multiset()
}

/// Two neighbours of the same key.
pub open spec fn tied(list: Seq<Plugin>, i: int) -> bool {
    0 <= i < list.len() - 1 && merge::sort_key(list[i]) == merge::sort_key(list[i + 1])
}

/// For what `see` tells of a plan it makes no difference which of two plugins with the same key
/// joins first.
pub open spec fn ties_do_not_matter<O>(plugins: Seq<Plugin>, see: spec_fn(Seq<Plugin>) -> O) -> bool {
    forall|list: Seq<Plugin>, i: int|
        is_arranged(list, plugins) && #[trigger] tied(list, i) ==> see(merge::joined_all(list))
            == see(merge::joined_all(exchanged(list, i)))
}

/// All plans of the plugins look the same.
pub open spec fn plans_look_alike<O>(plugins: Seq<Plugin>, see: spec_fn(Seq<Plugin>) -> O) -> bool {
    forall|plan: Seq<Plugin>, other: Seq<Plugin>| #[trigger]
        merge::is_plan(plugins, plan) && #[trigger] merge::is_plan(plugins, other) ==> see(plan)
            == see(other)
}

/// The identities of the packages of a plan, each as often as it occurs.
pub open spec fn plan_ids() -> spec_fn(Seq<Plugin>) -> vstd::multiset::Multiset<u128> {
    |plan: Seq<Plugin>| plan.map_values(|p: Plugin| loaded::id_of(p)).to_multiset()
}

proof fn lemma_exchanged(list: Seq<Plugin>, i: int, plugins: Seq<Plugin>)
    requires
        is_arranged(list, plugins),
        tied(list, i),
    ensures
        is_arranged(exchanged(list, i), plugins),
{
    let x = list[i];
    let y = list[i + 1];
    let half = list.update(i, y);
    let new = exchanged(list, i);
    vstd::seq_lib::to_multiset_update(list, i, y);
    vstd::seq_lib::to_multiset_update(half, i + 1, x);
    vstd::seq_lib::to_multiset_contains(list, x);
    vstd::seq_lib::to_multiset_contains(list, y);
    assert(list.contains(x) && list.contains(y));
    assert(half[i + 1] == y);
    assert(new.to_multiset() =~= list.to_multiset());
    reveal(merge::key_before);
    merge::lemma_sort_order();
    assert forall|a: int, b: int| 0 <= a < b < new.len() implies !merge::key_before(
        #[trigger] new[b],
        #[trigger] new[a],
    ) by {
        let a0 = if a == i {
            i + 1
        } else if a == i + 1 {
            i
        } else {
            a
        };
        let b0 = if b == i {
            i + 1
        } else if b == i + 1 {
            i
        } else {
            b
        };
        assert(new[a] == list[a0] && new[b] == list[b0]);
        if a == i && b == i + 1 {
            assert(merge::sort_key(list[a0]) == merge::sort_key(list[b0]));
        } else {
            assert(!merge::key_before(list[b0], list[a0]));
        }
    }
}

/// The first plugin in which two arrangements differ is reached by exchanges.
proof fn lemma_bubble<O>(
    a: Seq<Plugin>,
    b: Seq<Plugin>,
    k: int,
    j: int,
    plugins: Seq<Plugin>,
    see: spec_fn(Seq<Plugin>) -> O,
)
    requires
        is_arranged(a, plugins),
        is_arranged(b, plugins),
        ties_do_not_matter(plugins, see),
        a.len() == b.len(),
        0 <= k <= j < a.len(),
        a.take(k) == b.take(k),
        b[j] == a[k],
    ensures
        see(merge::joined_all(a)) == see(merge::joined_all(b)),
    decreases a.len() - k, j,
{
    if j == k {
        assert(a.take(k + 1) =~= b.take(k + 1)) by {
            assert(a.take(k + 1) =~= a.take(k).push(a[k]));
            assert(b.take(k + 1) =~= b.take(k).push(b[k]));
        }
        lemma_same_plan(a, b, k + 1, plugins, see);
    } else {
        let i = j - 1;
        reveal(merge::key_before);
        merge::lemma_sort_order();
        lemma_suffix_members(a, b, k, b[i]);
        assert(b.skip(k)[i - k] == b[i]);
        assert(b.skip(k).contains(b[i]));
        let m = choose|m: int| 0 <= m < a.skip(k).len() && a.skip(k)[m] == b[i];
        assert(a[k + m] == b[i]);
        assert(!merge::key_before(b[i], a[k])) by {
            if m > 0 {
                assert(!merge::key_before(a[k + m], a[k]));
            }
        }
        assert(!merge::key_before(b[j], b[i]));
        let lt = merge::sort_order();
        assert(merge::sort_key(b[i]) == merge::sort_key(b[j]) || lt(
            merge::sort_key(b[i]),
            merge::sort_key(b[j]),
        ) || lt(merge::sort_key(b[j]), merge::sort_key(b[i])));
        assert(tied(b, i));
        lemma_exchanged(b, i, plugins);
        let c = exchanged(b, i);
        assert(c.take(k) =~= b.take(k));
        assert(c[i] == a[k]);
        lemma_bubble(a, c, k, i, plugins, see);
    }
}

proof fn lemma_suffix_members(a: Seq<Plugin>, b: Seq<Plugin>, k: int, x: Plugin)
    requires
        a.to_multiset() == b.to_multiset(),
        a.len() == b.len(),
        0 <= k <= a.len(),
        a.take(k) == b.take(k),
    ensures
        a.skip(k).contains(x) == b.skip(k).contains(x),
    decreases k,
{
    if k == 0 {
        assert(a.skip(0) =~= a);
        assert(b.skip(0) =~= b);
        vstd::seq_lib::to_multiset_contains(a, x);
        vstd::seq_lib::to_multiset_contains(b, x);
    } else {
        let a1 = a.remove(0);
        let b1 = b.remove(0);
        assert(a.take(k)[0] == a[0]);
        assert(b.take(k)[0] == b[0]);
        assert(a[0] == b[0]);
        vstd::seq_lib::to_multiset_remove(a, 0);
        vstd::seq_lib::to_multiset_remove(b, 0);
        assert(a1.take(k - 1) =~= b1.take(k - 1)) by {
            assert forall|i: int| 0 <= i < k - 1 implies #[trigger] a1.take(k - 1)[i] == b1.take(
                k - 1,
            )[i] by {
                assert(a.take(k)[i + 1] == a[i + 1]);
                assert(b.take(k)[i + 1] == b[i + 1]);
            }
        }
        lemma_suffix_members(a1, b1, k - 1, x);
        assert(a1.skip(k - 1) =~= a.skip(k));
        assert(b1.skip(k - 1) =~= b.skip(k));
    }
}

proof fn lemma_same_plan<O>(
    a: Seq<Plugin>,
    b: Seq<Plugin>,
    k: int,
    plugins: Seq<Plugin>,
    see: spec_fn(Seq<Plugin>) -> O,
)
    requires
        is_arranged(a, plugins),
        is_arranged(b, plugins),
        ties_do_not_matter(plugins, see),
        a.len() == b.len(),
        0 <= k <= a.len(),
        a.take(k) == b.take(k),
    ensures
        see(merge::joined_all(a)) == see(merge::joined_all(b)),
    decreases a.len() - k, a.len(),
{
    if k == a.len() {
        assert(a.take(k) =~= a);
        assert(b.take(k) =~= b);
    } else {
        lemma_suffix_members(a, b, k, a[k]);
        assert(a.skip(k)[0] == a[k]);
        assert(a.skip(k).contains(a[k]));
        let m = choose|m: int| 0 <= m < b.skip(k).len() && b.skip(k)[m] == a[k];
        assert(b[k + m] == a[k]);
        lemma_bubble(a, b, k, k + m, plugins, see);
    }
}

/// The plans of the same plugins look the same, in whatever order these are given, exactly if it
/// makes no difference which of two plugins with the same key joins first.
pub proof fn law_plan_is_unique<O>(
    plugins: Seq<Plugin>,
    others: Seq<Plugin>,
    see: spec_fn(Seq<Plugin>) -> O,
)
    requires
        plugins.to_multiset() == others.to_multiset(),
    ensures
        plans_look_alike(plugins, see) <==> ties_do_not_matter(plugins, see),
        forall|plan: Seq<Plugin>| #[trigger]
            merge::is_plan(plugins, plan) <==> merge::is_plan(others, plan),
{
    if ties_do_not_matter(plugins, see) {
        assert forall|plan: Seq<Plugin>, other: Seq<Plugin>| #[trigger]
            merge::is_plan(plugins, plan) && #[trigger] merge::is_plan(plugins, other) implies see(
            plan,
        ) == see(other) by {
            let a = choose|sorted: Seq<Plugin>|
                merge::keys_in_order(sorted) && sorted.to_multiset() == plugins.to_multiset()
                    && plan == #[trigger] merge::joined_all(sorted);
            let b = choose|sorted: Seq<Plugin>|
                merge::keys_in_order(sorted) && sorted.to_multiset() == plugins.to_multiset()
                    && other == #[trigger] merge::joined_all(sorted);
            vstd::seq_lib::to_multiset_len(a);
            vstd::seq_lib::to_multiset_len(b);
            assert(a.take(0) =~= b.take(0));
            lemma_same_plan(a, b, 0, plugins, see);
        }
    }
    if plans_look_alike(plugins, see) {
        assert forall|list: Seq<Plugin>, i: int|
            is_arranged(list, plugins) && #[trigger] tied(list, i) implies see(
            merge::joined_all(list),
        ) == see(merge::joined_all(exchanged(list, i))) by {
            lemma_exchanged(list, i, plugins);
            assert(merge::is_plan(plugins, merge::joined_all(list)));
            assert(merge::is_plan(plugins, merge::joined_all(exchanged(list, i))));
        }
    }
    assert forall|plan: Seq<Plugin>| #[trigger]
        merge::is_plan(plugins, plan) <==> merge::is_plan(others, plan) by {}
}

/// The packages of the same plugins have the same identities, in whatever order the plugins are
/// given, wherever it makes no difference to these identities which of two plugins with the same
/// key joins first.
pub proof fn law_plan_ids(
    plugins: Seq<Plugin>,
    others: Seq<Plugin>,
    plan: Seq<Plugin>,
    other_plan: Seq<Plugin>,
)
    requires
        plugins.to_multiset() == others.to_multiset(),
        ties_do_not_matter(plugins, plan_ids()),
        merge::is_plan(plugins, plan),
        merge::is_plan(others, other_plan),
    ensures
        plan_ids()(plan) == plan_ids()(other_plan),
{
    law_plan_is_unique(plugins, others, plan_ids());
    assert(merge::is_plan(plugins, other_plan));
}

/// No two different plugins of the list have the same key.
pub open spec fn distinct_keys(list: Seq<Plugin>) -> bool {
    forall|i: int, j: int|
        0 <= i < list.len() && 0 <= j < list.len() && merge::sort_key(#[trigger] list[i])
            == merge::sort_key(#[trigger] list[j]) ==> list[i] == list[j]
}

/// The plugins have places of their own in the load order, as those of one configuration have.
pub open spec fn distinct_orders(list: Seq<Plugin>) -> bool {
    forall|i: int, j: int|
        0 <= i < j < list.len() ==> (#[trigger] list[i]).order != (#[trigger] list[j]).order
}

/// Plugins with places of their own have one plan, in whatever order they are given.
pub proof fn law_distinct_orders_have_one_plan(
    plugins: Seq<Plugin>,
    others: Seq<Plugin>,
    plan: Seq<Plugin>,
    other_plan: Seq<Plugin>,
)
    requires
        plugins.to_multiset() == others.to_multiset(),
        distinct_orders(plugins),
        merge::is_plan(plugins, plan),
        merge::is_plan(others, other_plan),
    ensures
        plan == other_plan,
{
    assert forall|i: int, j: int|
        0 <= i < plugins.len() && 0 <= j < plugins.len() && merge::sort_key(#[trigger] plugins[i])
            == merge::sort_key(#[trigger] plugins[j]) implies plugins[i] == plugins[j] by {
        assert((merge::sort_key(plugins[i]).1).0 == plugins[i].order);
        assert((merge::sort_key(plugins[j]).1).0 == plugins[j].order);
        if i < j {
            assert(plugins[i].order != plugins[j].order);
        } else if j < i {
            assert(plugins[j].order != plugins[i].order);
        }
    }
    let see = |plan: Seq<Plugin>| plan;
    law_distinct_keys_have_one_plan(plugins, see);
    law_plan_is_unique(plugins, others, see);
    assert(merge::is_plan(plugins, other_plan));
    assert(see(plan) == see(other_plan));
}

/// Where no two different plugins have the same key, there is one plan.
pub proof fn law_distinct_keys_have_one_plan<O>(
    plugins: Seq<Plugin>,
    see: spec_fn(Seq<Plugin>) -> O,
)
    requires
        distinct_keys(plugins),
    ensures
        plans_look_alike(plugins, see),
{
    assert forall|list: Seq<Plugin>, i: int|
        is_arranged(list, plugins) && #[trigger] tied(list, i) implies see(merge::joined_all(list))
        == see(merge::joined_all(exchanged(list, i))) by {
        let x = list[i];
        let y = list[i + 1];
        assert(list.contains(x) && list.contains(y));
        vstd::seq_lib::to_multiset_contains(list, x);
        vstd::seq_lib::to_multiset_contains(list, y);
        vstd::seq_lib::to_multiset_contains(plugins, x);
        vstd::seq_lib::to_multiset_contains(plugins, y);
        let m = choose|m: int| 0 <= m < plugins.len() && plugins[m] == x;
        let n = choose|n: int| 0 <= n < plugins.len() && plugins[n] == y;
        assert(merge::sort_key(plugins[m]) == merge::sort_key(plugins[n]));
        assert(exchanged(list, i) =~= list);
    }
    law_plan_is_unique(plugins, plugins, see);
}

} // verus!
