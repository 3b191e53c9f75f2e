//! The plan of an installation does not depend on the order in which plugins finish.

use crate::lazy_type;
use crate::loaded;
use crate::loaded::Plugin;
use crate::merge;
use crate::merge::unique;
use crate::pack_plan;
use crate::pack_plan::Plan;
use crate::scheduler::gather;
use vstd::prelude::*;

verus! {

/// No plugin has the place.
spec fn free(list: Seq<Plugin>, place: int) -> bool {
    forall|i: int| 0 <= i < list.len() ==> (#[trigger] list[i]).order != place
}

/// Groups keep places of their own when a plugin with a place of its own joins.
proof fn lemma_joined_places(groups: Seq<Plugin>, p: Plugin)
    requires
        unique::distinct_orders(groups),
        free(groups, p.order),
    ensures
        unique::distinct_orders(merge::joined(groups, p)),
        forall|o: int|
            free(groups, o) && o != p.order ==> #[trigger] free(merge::joined(groups, p), o),
    decreases groups.len(),
{
    match merge::first_fit(groups, p, 0) {
        Some(i) => {
            if 0 <= i < groups.len() {
                let rest = groups.remove(i);
                let both = loaded::combined(groups[i], p);
                assert forall|a: int, b: int| 0 <= a < b < rest.len() implies (
                #[trigger] rest[a]).order != (#[trigger] rest[b]).order by {
                    let x = if a < i {
                        a
                    } else {
                        a + 1
                    };
                    let y = if b < i {
                        b
                    } else {
                        b + 1
                    };
                    assert(rest[a] == groups[x] && rest[b] == groups[y]);
                }
                assert forall|k: int| 0 <= k < rest.len() implies (#[trigger] rest[k]).order
                    != both.order by {
                    let x = if k < i {
                        k
                    } else {
                        k + 1
                    };
                    assert(rest[k] == groups[x]);
                    assert(groups[x].order != p.order);
                    if x < i {
                        assert(groups[x].order != groups[i].order);
                    } else {
                        assert(groups[i].order != groups[x].order);
                    }
                }
                lemma_joined_places(rest, both);
                assert forall|o: int| free(groups, o) && o != p.order implies #[trigger] free(
                    merge::joined(groups, p),
                    o,
                ) by {
                    assert(groups[i].order != o);
                    assert forall|k: int| 0 <= k < rest.len() implies (#[trigger] rest[k]).order
                        != o by {
                        let x = if k < i {
                            k
                        } else {
                            k + 1
                        };
                        assert(rest[k] == groups[x]);
                    }
                    assert(free(rest, o));
                    assert(free(merge::joined(rest, both), o));
                }
            }
        },
        None => {
            merge::lemma_insertion_point(groups, p);
            let at = merge::insertion_point(groups, p);
            let after = groups.insert(at, p);
            assert forall|a: int, b: int| 0 <= a < b < after.len() implies (
            #[trigger] after[a]).order != (#[trigger] after[b]).order by {
                if a < at && b < at {
                    assert(after[a] == groups[a] && after[b] == groups[b]);
                } else if a < at && b > at {
                    assert(after[a] == groups[a] && after[b] == groups[b - 1]);
                } else if a > at {
                    assert(after[a] == groups[a - 1] && after[b] == groups[b - 1]);
                } else if a == at {
                    assert(after[a] == p && after[b] == groups[b - 1]);
                } else {
                    assert(after[a] == groups[a] && after[b] == p);
                }
            }
            assert forall|o: int| free(groups, o) && o != p.order implies #[trigger] free(
                merge::joined(groups, p),
                o,
            ) by {
                assert forall|k: int| 0 <= k < after.len() implies (#[trigger] after[k]).order
                    != o by {
                    if k < at {
                        assert(after[k] == groups[k]);
                    } else if k > at {
                        assert(after[k] == groups[k - 1]);
                    }
                }
            }
        },
    }
}

proof fn lemma_all_places(list: Seq<Plugin>)
    requires
        unique::distinct_orders(list),
    ensures
        unique::distinct_orders(merge::joined_all(list)),
        forall|o: int| free(list, o) ==> #[trigger] free(merge::joined_all(list), o),
    decreases list.len(),
{
    if list.len() > 0 {
        let front = list.drop_last();
        let last = list.last();
        assert forall|i: int, j: int| 0 <= i < j < front.len() implies (#[trigger] front[i]).order
            != (#[trigger] front[j]).order by {
            assert(front[i] == list[i] && front[j] == list[j]);
        }
        lemma_all_places(front);
        assert(free(front, last.order)) by {
            assert forall|i: int| 0 <= i < front.len() implies (#[trigger] front[i]).order
                != last.order by {
                assert(list[i].order != list[list.len() - 1].order);
            }
        }
        assert(free(merge::joined_all(front), last.order));
        lemma_joined_places(merge::joined_all(front), last);
        assert forall|o: int| free(list, o) implies #[trigger] free(merge::joined_all(list), o) by {
            assert(list[list.len() - 1].order != o);
            assert forall|i: int| 0 <= i < front.len() implies (#[trigger] front[i]).order != o by {
                assert(list[i] == front[i]);
            }
            assert(free(front, o));
            assert(free(merge::joined_all(front), o));
        }
    }
}

/// Plugins have places of their own in any order of them.
proof fn lemma_places_kept(a: Seq<Plugin>, b: Seq<Plugin>)
    requires
        a.to_multiset() == b.to_multiset(),
        unique::distinct_orders(a),
    ensures
        unique::distinct_orders(b),
{
    let f = |p: Plugin| Some(p.order);
    gather::law_gathered_in_any_order(a, b, f);
    gather::lemma_gathered_map(a, f);
    gather::lemma_gathered_map(b, f);
    let x = gather::gathered(a, f);
    let y = gather::gathered(b, f);
    assert forall|i: int, j: int| 0 <= i < x.len() && 0 <= j < x.len() && i != j implies x[i]
        != x[j] by {
        if i < j {
            assert(a[i].order != a[j].order);
        } else {
            assert(a[j].order != a[i].order);
        }
    }
    assert(x.no_duplicates());
    x.lemma_multiset_has_no_duplicates();
    y.lemma_multiset_has_no_duplicates_conv();
    assert forall|i: int, j: int| 0 <= i < j < b.len() implies (#[trigger] b[i]).order != (
    #[trigger] b[j]).order by {
        assert(y[i] == b[i].order && y[j] == b[j].order);
    }
}

/// Plugins with places of their own come out in one order.
proof fn lemma_one_way_out(a: Seq<Plugin>, b: Seq<Plugin>)
    requires
        a.to_multiset() == b.to_multiset(),
        unique::distinct_orders(a),
        forall|i: int, j: int|
            0 <= i < j < a.len() ==> !loaded::comes_out_before(#[trigger] a[j], #[trigger] a[i]),
        forall|i: int, j: int|
            0 <= i < j < b.len() ==> !loaded::comes_out_before(#[trigger] b[j], #[trigger] b[i]),
    ensures
        a == b,
    decreases a.len(),
{
    vstd::seq_lib::to_multiset_len(a);
    vstd::seq_lib::to_multiset_len(b);
    if a.len() == 0 {
        assert(a =~= b);
    } else {
        let x = a[0];
        let y = b[0];
        assert(a.contains(x) && b.contains(y));
        vstd::seq_lib::to_multiset_contains(a, x);
        vstd::seq_lib::to_multiset_contains(b, x);
        vstd::seq_lib::to_multiset_contains(a, y);
        vstd::seq_lib::to_multiset_contains(b, y);
        let m = choose|m: int| 0 <= m < b.len() && b[m] == x;
        let k = choose|k: int| 0 <= k < a.len() && a[k] == y;
        lazy_type::lemma_lazy_order();
        let lt = lazy_type::lazy_order();
        if k > 0 && m > 0 {
            assert(!loaded::comes_out_before(a[k], a[0]));
            assert(!loaded::comes_out_before(b[m], b[0]));
            assert(x.lazy == y.lazy || lt(x.lazy, y.lazy) || lt(y.lazy, x.lazy));
            assert(a[0].order != a[k].order);
        }
        assert(x == y);
        let a1 = a.remove(0);
        let b1 = b.remove(0);
        vstd::seq_lib::to_multiset_remove(a, 0);
        vstd::seq_lib::to_multiset_remove(b, 0);
        assert forall|i: int, j: int| 0 <= i < j < a1.len() implies (#[trigger] a1[i]).order != (
        #[trigger] a1[j]).order && !loaded::comes_out_before(a1[j], a1[i]) by {
            assert(a1[i] == a[i + 1] && a1[j] == a[j + 1]);
        }
        assert forall|i: int, j: int| 0 <= i < j < b1.len() implies !loaded::comes_out_before(
            #[trigger] b1[j],
            #[trigger] b1[i],
        ) by {
            assert(b1[i] == b[i + 1] && b1[j] == b[j + 1]);
        }
        lemma_one_way_out(a1, b1);
        assert(a =~= seq![x] + a1);
        assert(b =~= seq![y] + b1);
    }
}

/// The plan of a run does not depend on the order in which its plugins finish: plugins with
/// places of their own in the load order, as those of one configuration have, are merged into the
/// same packages, which are planned in the same order.
pub proof fn law_one_plan_of_a_run(
    plan: Plan,
    plugins: Seq<Plugin>,
    others: Seq<Plugin>,
    out: Seq<Plugin>,
    other_out: Seq<Plugin>,
)
    requires
        plugins.to_multiset() == others.to_multiset(),
        unique::distinct_orders(plugins),
        pack_plan::planned(pack_plan::rests(plugins), out),
        pack_plan::planned(pack_plan::rests(others), other_out),
    ensures
        out == other_out,
        pack_plan::inserted_all(plan, out) == pack_plan::inserted_all(plan, other_out),
        pack_plan::docs(plugins).to_multiset() == pack_plan::docs(others).to_multiset(),
{
    let a = pack_plan::rests(plugins);
    let b = pack_plan::rests(others);
    let f = |p: Plugin| Some(pack_plan::rest_of(p));
    gather::law_gathered_in_any_order(plugins, others, f);
    gather::lemma_gathered_map(plugins, f);
    gather::lemma_gathered_map(others, f);
    assert(gather::gathered(plugins, f) =~= a);
    assert(gather::gathered(others, f) =~= b);
    assert forall|i: int, j: int| 0 <= i < j < a.len() implies (#[trigger] a[i]).order != (
    #[trigger] a[j]).order by {
        assert(a[i].order == plugins[i].order && a[j].order == plugins[j].order);
    }
    let x = choose|x: Seq<Plugin>| #[trigger]
        merge::is_plan(a, x) && pack_plan::comes_out(out, x);
    let y = choose|y: Seq<Plugin>| #[trigger]
        merge::is_plan(b, y) && pack_plan::comes_out(other_out, y);
    unique::law_distinct_orders_have_one_plan(a, b, x, y);
    let sorted = choose|sorted: Seq<Plugin>|
        merge::keys_in_order(sorted) && sorted.to_multiset() == a.to_multiset() && x
            == #[trigger] merge::joined_all(sorted);
    lemma_places_kept(a, sorted);
    lemma_all_places(sorted);
    lemma_places_kept(x, out);
    lemma_one_way_out(out, other_out);
    lemma_docs(plugins);
    lemma_docs(others);
    gather::law_gathered_in_any_order(plugins, others, split_off());
}

/// The documentation that is split off a plugin.
pub open spec fn split_off() -> spec_fn(Plugin) -> Option<Plugin> {
    |p: Plugin|
        if pack_plan::has_doc(p) {
            Some(loaded::doc_plugin(loaded::only_doc(p.files)))
        } else {
            None
        }
}

proof fn lemma_docs(list: Seq<Plugin>)
    ensures
        pack_plan::docs(list) == gather::gathered(list, split_off()),
    decreases list.len(),
{
    if list.len() > 0 {
        lemma_docs(list.drop_last());
    }
    assert(pack_plan::docs(list) =~= gather::gathered(list, split_off()));
}

} // verus!
