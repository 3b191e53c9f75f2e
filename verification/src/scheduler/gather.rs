//! What is gathered from the members of a list.

use crate::scheduler::outcome;
use crate::scheduler::outcome::Outcome;
use vstd::prelude::*;

verus! {

/// What `f` gives for the members of the list, in order.
pub open spec fn gathered<A, B>(list: Seq<A>, f: spec_fn(A) -> Option<B>) -> Seq<B>
    decreases list.len(),
{
    if list.len() == 0 {
        Seq::empty()
    } else {
        match f(list.last()) {
            Some(x) => gathered(list.drop_last(), f).push(x),
            None => gathered(list.drop_last(), f),
        }
    }
}

pub proof fn lemma_gathered_joined<A, B>(a: Seq<A>, b: Seq<A>, f: spec_fn(A) -> Option<B>)
    ensures
        gathered(a + b, f) == gathered(a, f) + gathered(b, f),
    decreases b.len(),
{
    if b.len() == 0 {
        assert(a + b =~= a);
        assert(gathered(a, f) + Seq::<B>::empty() =~= gathered(a, f));
    } else {
        assert((a + b).drop_last() =~= a + b.drop_last());
        lemma_gathered_joined(a, b.drop_last(), f);
        assert(gathered(a + b, f) =~= gathered(a, f) + gathered(b, f));
    }
}

/// Taking a member away takes away what is gathered from it.
proof fn lemma_gathered_remove<A, B>(list: Seq<A>, i: int, f: spec_fn(A) -> Option<B>)
    requires
        0 <= i < list.len(),
    ensures
        gathered(list, f).to_multiset() == (match f(list[i]) {
            Some(x) => gathered(list.remove(i), f).to_multiset().insert(x),
            None => gathered(list.remove(i), f).to_multiset(),
        }),
{
    let front = list.take(i);
    let one = seq![list[i]];
    let rest = list.skip(i + 1);
    assert(list =~= front + (one + rest));
    assert(list.remove(i) =~= front + rest);
    lemma_gathered_joined(front, one + rest, f);
    lemma_gathered_joined(one, rest, f);
    lemma_gathered_joined(front, rest, f);
    assert(one.drop_last() =~= Seq::<A>::empty());
    assert(gathered(one.drop_last(), f) =~= Seq::<B>::empty());
    let a = gathered(front, f);
    let b = gathered(rest, f);
    match f(list[i]) {
        Some(x) => {
            assert(gathered(one, f) =~= seq![x]);
            assert(gathered(list, f) =~= (a + b).insert(a.len() as int, x));
            vstd::seq_lib::to_multiset_insert(a + b, a.len() as int, x);
        },
        None => {
            assert(gathered(one, f) =~= Seq::<B>::empty());
            assert(gathered(list, f) =~= a + b);
        },
    }
}

/// What is gathered does not depend on the order of the list, except for its order.
pub proof fn law_gathered_in_any_order<A, B>(a: Seq<A>, b: Seq<A>, f: spec_fn(A) -> Option<B>)
    requires
        a.to_multiset() == b.to_multiset(),
    ensures
        gathered(a, f).to_multiset() == gathered(b, f).to_multiset(),
        gathered(a, f).len() == gathered(b, f).len(),
    decreases a.len(),
{
    vstd::seq_lib::to_multiset_len(a);
    vstd::seq_lib::to_multiset_len(b);
    if a.len() > 0 {
        let x = a.last();
        assert(a[a.len() - 1] == x);
        vstd::seq_lib::to_multiset_contains(a, x);
        vstd::seq_lib::to_multiset_contains(b, x);
        assert(a.contains(x));
        let i = choose|i: int| 0 <= i < b.len() && b[i] == x;
        vstd::seq_lib::to_multiset_remove(a, a.len() - 1);
        vstd::seq_lib::to_multiset_remove(b, i);
        assert(a.remove(a.len() - 1) =~= a.drop_last());
        law_gathered_in_any_order(a.drop_last(), b.remove(i), f);
        lemma_gathered_remove(a, a.len() - 1, f);
        lemma_gathered_remove(b, i, f);
    } else {
        assert(a =~= b);
    }
    vstd::seq_lib::to_multiset_len(gathered(a, f));
    vstd::seq_lib::to_multiset_len(gathered(b, f));
}

proof fn lemma_outcomes_gathered<P>(list: Seq<Outcome<P>>)
    ensures
        outcome::plugins_of(list) == gathered(list, plugin_of()),
        outcome::locks_of(list) == gathered(list, lock_of()),
        outcome::removals_of(list) == gathered(list, removal_of()),
    decreases list.len(),
{
    if list.len() > 0 {
        lemma_outcomes_gathered(list.drop_last());
    }
}

/// The plugin of an outcome.
pub open spec fn plugin_of<P>() -> spec_fn(Outcome<P>) -> Option<P> {
    |o: Outcome<P>|
        match o.loaded {
            Some((p, _)) => Some(p),
            None => None,
        }
}

/// The lock of an outcome.
pub open spec fn lock_of<P>() -> spec_fn(Outcome<P>) -> Option<(String, String)> {
    |o: Outcome<P>|
        match o.loaded {
            Some((_, lock)) => lock,
            None => None,
        }
}

/// The lock that an outcome gives up.
pub open spec fn removal_of<P>() -> spec_fn(Outcome<P>) -> Option<String> {
    |o: Outcome<P>| o.canon_to_remove
}

/// What loading gives does not depend on the order in which plugins are finished: if one order is
/// without errors, so is the other, and both give the same plugins, locks and removals.
pub proof fn law_outcomes_in_any_order<P, E>(
    a: Seq<Result<Outcome<P>, E>>,
    b: Seq<Result<Outcome<P>, E>>,
)
    requires
        a.to_multiset() == b.to_multiset(),
        forall|i: int| 0 <= i < a.len() ==> (#[trigger] a[i]) is Ok,
    ensures
        forall|i: int| 0 <= i < b.len() ==> (#[trigger] b[i]) is Ok,
        outcome::plugins_of(outcome::all_ok(a)).to_multiset() == outcome::plugins_of(
            outcome::all_ok(b),
        ).to_multiset(),
        outcome::locks_of(outcome::all_ok(a)).to_multiset() == outcome::locks_of(
            outcome::all_ok(b),
        ).to_multiset(),
        outcome::removals_of(outcome::all_ok(a)).to_multiset() == outcome::removals_of(
            outcome::all_ok(b),
        ).to_multiset(),
{
    assert forall|i: int| 0 <= i < b.len() implies (#[trigger] b[i]) is Ok by {
        assert(b.contains(b[i]));
        vstd::seq_lib::to_multiset_contains(b, b[i]);
        vstd::seq_lib::to_multiset_contains(a, b[i]);
        let k = choose|k: int| 0 <= k < a.len() && a[k] == b[i];
        assert(a[k] is Ok);
    }
    let f = |r: Result<Outcome<P>, E>| Some(r->Ok_0);
    lemma_gathered_map(a, f);
    lemma_gathered_map(b, f);
    law_gathered_in_any_order(a, b, f);
    assert(gathered(a, f) =~= outcome::all_ok(a));
    assert(gathered(b, f) =~= outcome::all_ok(b));
    let x = outcome::all_ok(a);
    let y = outcome::all_ok(b);
    lemma_outcomes_gathered(x);
    lemma_outcomes_gathered(y);
    law_gathered_in_any_order(x, y, plugin_of());
    law_gathered_in_any_order(x, y, lock_of());
    law_gathered_in_any_order(x, y, removal_of());
}

pub proof fn lemma_gathered_map<A, B>(list: Seq<A>, f: spec_fn(A) -> Option<B>)
    requires
        forall|x: A| (#[trigger] f(x)) is Some,
    ensures
        gathered(list, f).len() == list.len(),
        forall|i: int| 0 <= i < list.len() ==> #[trigger] gathered(list, f)[i] == f(list[i])->0,
    decreases list.len(),
{
    if list.len() > 0 {
        lemma_gathered_map(list.drop_last(), f);
        assert(f(list.last()) is Some);
    }
}

} // verus!
