//! The order in which plugins are merged, and that of what they become.

use crate::lazy_type;
use crate::loaded;
use crate::loaded::Plugin;
use crate::merge;
use crate::order;
use vstd::prelude::*;

verus! {

/// Plugins are merged by when they are loaded, those that start with the editor first; then by their
/// order; then those that are not generated first; and then by identity.
pub proof fn law_merge_order(a: Plugin, b: Plugin)
    ensures
        a.lazy is Start && b.lazy is Opt ==> merge::key_before(a, b) && !merge::key_before(b, a),
        a.lazy == b.lazy && a.order < b.order ==> merge::key_before(a, b) && !merge::key_before(b, a),
        a.lazy == b.lazy && a.order == b.order && !a.is_lazy_registration && b.is_lazy_registration
            ==> merge::key_before(a, b) && !merge::key_before(b, a),
        a.lazy == b.lazy && a.order == b.order && a.is_lazy_registration == b.is_lazy_registration
            ==> (merge::key_before(a, b) <==> (loaded::id_of(a) as int) < (loaded::id_of(b) as int)),
{
    lemma_key(a, b);
    lemma_key(b, a);
    lazy_type::lemma_lazy_order();
    let lt = lazy_type::lazy_order();
    assert(!lt(a.lazy, a.lazy));
    assert(!lt(b.lazy, b.lazy));
    if a.lazy is Start && b.lazy is Opt {
        assert(lt(a.lazy, b.lazy));
        assert(!lt(b.lazy, a.lazy));
    }
}

proof fn lemma_key(a: Plugin, b: Plugin)
    ensures
        merge::key_before(a, b) <==> lazy_type::lazy_order()(a.lazy, b.lazy) || (a.lazy == b.lazy && (
        a.order < b.order || (a.order == b.order && ((!a.is_lazy_registration
            && b.is_lazy_registration) || (a.is_lazy_registration == b.is_lazy_registration && (
        loaded::id_of(a) as int) < (loaded::id_of(b) as int)))))),
{
    let inner = order::pair_order(merge::bool_order(), merge::int_order());
    let mid = order::pair_order(merge::int_order(), inner);
    reveal(merge::key_before);
    let x = merge::sort_key(a);
    let y = merge::sort_key(b);
    assert(merge::bool_order()(((x.1).1).0, ((y.1).1).0) == (!a.is_lazy_registration
        && b.is_lazy_registration));
    assert(inner((x.1).1, (y.1).1) == (merge::bool_order()(((x.1).1).0, ((y.1).1).0) || (((x.1).1).0
        == ((y.1).1).0 && merge::int_order()(((x.1).1).1, ((y.1).1).1))));
    assert(mid(x.1, y.1) == (merge::int_order()((x.1).0, (y.1).0) || ((x.1).0 == (y.1).0 && inner(
        (x.1).1,
        (y.1).1,
    ))));
    assert(merge::int_order()((x.1).0, (y.1).0) == (a.order < b.order));
    assert(merge::int_order()(((x.1).1).1, ((y.1).1).1) == ((loaded::id_of(a) as int) < (
    loaded::id_of(b) as int)));
    assert(merge::sort_order()(x, y) == (lazy_type::lazy_order()(x.0, y.0) || (x.0 == y.0 && mid(
        x.1,
        y.1,
    ))));
    let by_id = (loaded::id_of(a) as int) < (loaded::id_of(b) as int);
    let generated = !a.is_lazy_registration && b.is_lazy_registration;
    assert(inner((x.1).1, (y.1).1) == (generated || (a.is_lazy_registration
        == b.is_lazy_registration && by_id)));
    assert(mid(x.1, y.1) == (a.order < b.order || (a.order == b.order && inner(
        (x.1).1,
        (y.1).1,
    ))));
    assert(merge::key_before(a, b) == (lazy_type::lazy_order()(a.lazy, b.lazy) || (a.lazy == b.lazy
        && mid(x.1, y.1))));
}

/// A plugin joins the first group that it can be combined with, and no other; if there is none, it
/// becomes a group of its own.
pub proof fn law_first_fit(groups: Seq<Plugin>, p: Plugin, from: int)
    requires
        0 <= from <= groups.len(),
    ensures
        match merge::first_fit(groups, p, from) {
            Some(i) => {
                &&& from <= i < groups.len()
                &&& loaded::combinable(groups[i], p)
                &&& forall|k: int| from <= k < i ==> !loaded::combinable(#[trigger] groups[k], p)
            },
            None => forall|k: int|
                from <= k < groups.len() ==> !loaded::combinable(#[trigger] groups[k], p),
        },
    decreases groups.len() - from,
{
    if from < groups.len() {
        law_first_fit(groups, p, from + 1);
    }
}

proof fn lemma_joined_in_order(groups: Seq<Plugin>, p: Plugin)
    requires
        merge::keys_in_order(groups),
    ensures
        merge::keys_in_order(merge::joined(groups, p)),
    decreases groups.len(),
{
    match merge::first_fit(groups, p, 0) {
        Some(i) => {
            if 0 <= i < groups.len() {
                let less = groups.remove(i);
                assert forall|a: int, b: int| 0 <= a < b < less.len() implies !merge::key_before(
                    #[trigger] less[b],
                    #[trigger] less[a],
                ) by {
                    let x = if a < i {
                        a
                    } else {
                        a + 1
                    };
                    let y = if b < i {
                        b
                    } else {
                        b + 1
                    };
                    assert(less[a] == groups[x] && less[b] == groups[y]);
                }
                lemma_joined_in_order(less, loaded::combined(groups[i], p));
            }
        },
        None => {
            merge::lemma_insert_in_order(groups, p);
        },
    }
}

proof fn lemma_all_in_order(list: Seq<Plugin>)
    ensures
        merge::keys_in_order(merge::joined_all(list)),
    decreases list.len(),
{
    if list.len() > 0 {
        lemma_all_in_order(list.drop_last());
        lemma_joined_in_order(merge::joined_all(list.drop_last()), list.last());
    }
}

/// What plugins become is in the order of merging: of two packages that are loaded on the same
/// occasion the one with the smaller order comes first, and those that start with the editor come
/// before all others.
pub proof fn law_plan_is_in_order(plugins: Seq<Plugin>, plan: Seq<Plugin>, i: int, j: int)
    requires
        merge::is_plan(plugins, plan),
        0 <= i < j < plan.len(),
    ensures
        plan[i].lazy == plan[j].lazy ==> plan[i].order <= plan[j].order,
        plan[j].lazy is Start ==> plan[i].lazy is Start,
{
    let sorted = choose|sorted: Seq<Plugin>|
        merge::keys_in_order(sorted) && sorted.to_multiset() == plugins.to_multiset() && plan
            == #[trigger] merge::joined_all(sorted);
    lemma_all_in_order(sorted);
    law_merge_order(plan[j], plan[i]);
    assert(!merge::key_before(plan[j], plan[i]));
}

} // verus!
