//! Loading a configuration, in whatever order its files are read and its plugins finish.

use crate::config::PluginConfig;
use crate::loaded::{LoadedPlugin, Plugin};
use crate::merge;
use crate::merge::unique;
use crate::pack_plan;
use crate::pack_plan::one_plan;
use crate::repo;
use crate::resolve;
use crate::resolve::Resolved;
use crate::scheduler;
use crate::scheduler::gather;
use crate::scheduler::graph;
use crate::scheduler::graph::Loading;
use crate::scheduler::laws::LoadEvent;
use crate::scheduler::machine;
use crate::scheduler::machine::Sched;
use crate::scheduler::outcome;
use crate::scheduler::outcome::Outcome;
use crate::scheduler::reading;
use crate::scheduler::reading::Read;
use crate::scheduler::results;
use crate::scheduler::{RepoRequest, Request};
use vstd::prelude::*;

verus! {

impl PluginConfig {
    /// What the plugin asks for of its repository, if it has one.
    pub open spec fn asks_for(&self) -> Option<Request> {
        match self.cache.repo {
            Some(source) => Some(
                Request {
                    canonical: repo::canonical_of(source@),
                    rev: repo::rev_of(source@),
                    github: repo::github_pair(source@),
                },
            ),
            None => None,
        }
    }

    /// What the plugin asks for of its repository, if it has one.
    pub fn request(&self) -> (request: Option<RepoRequest>)
        ensures
            scheduler::request_view(request) == self.asks_for(),
    {
        match &self.cache.repo {
            Some(source) => Some(
                RepoRequest {
                    canonical: source.canonical(),
                    rev: source.rev(),
                    github: source.github(),
                },
            ),
            None => None,
        }
    }
}

/// A plugin as it is read.
pub open spec fn read_of(plugin: PluginConfig) -> Read {
    Read { id: plugin.internal_id_text(), request: plugin.asks_for() }
}

/// Plugins as they are read.
pub open spec fn reads_of(plugins: Seq<PluginConfig>) -> Seq<Read> {
    plugins.map_values(|plugin: PluginConfig| read_of(plugin))
}

/// The names of resolved plugins.
pub open spec fn ids_of(list: Seq<Resolved>) -> Seq<Seq<char>> {
    list.map_values(|plugin: Resolved| plugin.config.internal_id_text())
}

/// In a configuration that is resolved, a name is that of one plugin.
proof fn lemma_one_read_per_id(plugins: Seq<PluginConfig>, list: Seq<Resolved>, reads: Seq<Read>)
    requires
        resolve::loads(plugins, list),
        reads.to_multiset() == reads_of(plugins).to_multiset(),
    ensures
        reading::one_read_per_id(reads),
{
    let all = reads_of(plugins);
    assert forall|i: int, j: int|
        0 <= i < reads.len() && 0 <= j < reads.len() && (#[trigger] reads[i]).id == (
        #[trigger] reads[j]).id implies reads[i] == reads[j] by {
        reading::lemma_members(reads, all);
        assert(all.contains(reads[i]) && all.contains(reads[j]));
        let k = choose|k: int| 0 <= k < all.len() && all[k] == reads[i];
        let l = choose|l: int| 0 <= l < all.len() && all[l] == reads[j];
        if k < l {
            resolve::law_duplicates_are_refused(plugins, list, k, l);
        } else if l < k {
            resolve::law_duplicates_are_refused(plugins, list, l, k);
        }
    }
}

proof fn lemma_distinct_ids(plugins: Seq<PluginConfig>, list: Seq<Resolved>)
    requires
        resolve::loads(plugins, list),
    ensures
        ids_of(list).no_duplicates(),
{
    let ids = ids_of(list);
    assert forall|i: int, j: int|
        0 <= i < ids.len() && 0 <= j < ids.len() && i != j implies ids[i] != ids[j] by {
        if i < j {
            resolve::law_distinct_names_loaded(plugins, list, i, j);
        } else {
            resolve::law_distinct_names_loaded(plugins, list, j, i);
        }
    }
}

/// Loading a configuration does not depend on the order in which its plugins are read, nor on that
/// in which they finish.  Where plugins can be read in one order they can be read in any.  If they
/// can be resolved, then once all are finished, if one course is without errors, so is the other,
/// and both give the same plugins, locks and removals.  What becomes of each plugin is given by
/// `of`.
pub proof fn law_loading_in_any_order<P, E>(
    s: Sched,
    plugins: Seq<PluginConfig>,
    list: Seq<Resolved>,
    a: Seq<Read>,
    b: Seq<Read>,
    g: Loading,
    events: Seq<LoadEvent>,
    others: Seq<LoadEvent>,
    of: spec_fn(int) -> Result<Outcome<P>, E>,
)
    requires
        a.to_multiset() == reads_of(plugins).to_multiset(),
        b.to_multiset() == reads_of(plugins).to_multiset(),
        graph::is_start(g),
        g.nodes.len() == list.len(),
    ensures
        reading::read_all(s, a) is Some <==> reading::read_all(s, b) is Some,
        reading::read_all(s, a) is Some && resolve::loads(plugins, list) ==> ({
            let p = results::whole_course((reading::read_all(s, a)->0).s, g, ids_of(list), events);
            let q = results::whole_course((reading::read_all(s, b)->0).s, g, ids_of(list), others);
            let x = results::became(p, of);
            let y = results::became(q, of);
            machine::all_finished(p.s.loading) && machine::all_finished(q.s.loading) ==> {
                &&& x.to_multiset() == y.to_multiset()
                &&& (forall|i: int| 0 <= i < x.len() ==> (#[trigger] x[i]) is Ok) ==> {
                    &&& forall|i: int| 0 <= i < y.len() ==> (#[trigger] y[i]) is Ok
                    &&& outcome::plugins_of(outcome::all_ok(x)).to_multiset()
                        == outcome::plugins_of(outcome::all_ok(y)).to_multiset()
                    &&& outcome::locks_of(outcome::all_ok(x)).to_multiset() == outcome::locks_of(
                        outcome::all_ok(y),
                    ).to_multiset()
                    &&& outcome::removals_of(outcome::all_ok(x)).to_multiset()
                        == outcome::removals_of(outcome::all_ok(y)).to_multiset()
                }
            }
        }),
{
    reading::law_read_in_any_order(s, a, b);
    if reading::read_all(s, a) is Some && resolve::loads(plugins, list) {
        let ids = ids_of(list);
        lemma_one_read_per_id(plugins, list, a);
        lemma_distinct_ids(plugins, list);
        let p = results::whole_course((reading::read_all(s, a)->0).s, g, ids, events);
        let q = results::whole_course((reading::read_all(s, b)->0).s, g, ids, others);
        if machine::all_finished(p.s.loading) && machine::all_finished(q.s.loading) {
            results::lemma_courses_agree(s, a, b, g, ids, events, others, of);
        }
    }
}

/// No plugin has the place.
spec fn free(list: Seq<LoadedPlugin>, place: int) -> bool {
    forall|i: int| 0 <= i < list.len() ==> (#[trigger] list[i])@.order != place
}

/// Plugins that are loaded at places of their own have them afterwards.
proof fn lemma_loaded_places<E>(
    places: Seq<int>,
    of: spec_fn(int) -> Result<Outcome<LoadedPlugin>, E>,
)
    requires
        places.no_duplicates(),
        forall|i: int| keeps_place(i, #[trigger] of(i)),
        forall|k: int| 0 <= k < places.len() ==> of(#[trigger] places[k]) is Ok,
    ensures
        ({
            let list = outcome::plugins_of(
                outcome::all_ok(places.map_values(|i: int| of(i))),
            );
            &&& unique::distinct_orders(merge::plugin_models(list))
            &&& forall|o: int| !places.contains(o) ==> #[trigger] free(list, o)
        }),
    decreases places.len(),
{
    let all = outcome::all_ok(places.map_values(|i: int| of(i)));
    let list = outcome::plugins_of(all);
    if places.len() > 0 {
        let front = places.drop_last();
        let n = places.last();
        let before = outcome::all_ok(front.map_values(|i: int| of(i)));
        let earlier = outcome::plugins_of(before);
        assert forall|k: int| 0 <= k < front.len() implies of(#[trigger] front[k]) is Ok by {
            assert(front[k] == places[k]);
        }
        assert(front.no_duplicates());
        lemma_loaded_places(front, of);
        assert(all.drop_last() =~= before);
        assert(all.last() == of(n)->Ok_0);
        assert(places[places.len() - 1] == n);
        assert(!front.contains(n)) by {
            if front.contains(n) {
                let k = choose|k: int| 0 <= k < front.len() && front[k] == n;
                assert(places[k] == places[places.len() - 1]);
            }
        }
        assert(free(earlier, n));
        assert(keeps_place(n, of(n)));
        assert forall|o: int| !places.contains(o) implies #[trigger] free(list, o) by {
            assert(!front.contains(o)) by {
                if front.contains(o) {
                    let k = choose|k: int| 0 <= k < front.len() && front[k] == o;
                    assert(places[k] == o);
                }
            }
            assert(free(earlier, o));
            assert(places.contains(n));
        }
        let models = merge::plugin_models(list);
        let old = merge::plugin_models(earlier);
        assert forall|i: int, j: int| 0 <= i < j < models.len() implies (
        #[trigger] models[i]).order != (#[trigger] models[j]).order by {
            if j < old.len() {
                assert(models[i] == old[i] && models[j] == old[j]);
            } else {
                assert(earlier[i]@.order != n);
                assert(models[i] == earlier[i]@);
            }
        }
    }
}

/// What became of the plugin at place `i` is at that place in the load order.
pub open spec fn keeps_place<E>(i: int, became: Result<Outcome<LoadedPlugin>, E>) -> bool {
    became matches Ok(outcome) ==> (outcome.loaded matches Some(pair) ==> pair.0@.order == i)
}

/// Where plugins keep their places in the load order, both courses of a configuration lead to the
/// same packages, planned in the same order.
pub proof fn law_one_plan_of_a_configuration<E>(
    s: Sched,
    plugins: Seq<PluginConfig>,
    list: Seq<Resolved>,
    a: Seq<Read>,
    b: Seq<Read>,
    g: Loading,
    events: Seq<LoadEvent>,
    others: Seq<LoadEvent>,
    of: spec_fn(int) -> Result<Outcome<LoadedPlugin>, E>,
    out: Seq<Plugin>,
    other_out: Seq<Plugin>,
)
    requires
        a.to_multiset() == reads_of(plugins).to_multiset(),
        b.to_multiset() == reads_of(plugins).to_multiset(),
        graph::is_start(g),
        g.nodes.len() == list.len(),
        resolve::loads(plugins, list),
        forall|i: int| keeps_place(i, #[trigger] of(i)),
        reading::read_all(s, a) is Some,
        ({
            let p = results::whole_course((reading::read_all(s, a)->0).s, g, ids_of(list), events);
            let q = results::whole_course((reading::read_all(s, b)->0).s, g, ids_of(list), others);
            let x = results::became(p, of);
            let y = results::became(q, of);
            &&& machine::all_finished(p.s.loading)
            &&& machine::all_finished(q.s.loading)
            &&& forall|i: int| 0 <= i < x.len() ==> (#[trigger] x[i]) is Ok
            &&& pack_plan::planned(
                pack_plan::rests(merge::plugin_models(outcome::plugins_of(outcome::all_ok(x)))),
                out,
            )
            &&& pack_plan::planned(
                pack_plan::rests(merge::plugin_models(outcome::plugins_of(outcome::all_ok(y)))),
                other_out,
            )
        }),
    ensures
        out == other_out,
{
    law_loading_in_any_order(s, plugins, list, a, b, g, events, others, of);
    let ids = ids_of(list);
    let start = (reading::read_all(s, a)->0).s;
    let p = results::whole_course(start, g, ids, events);
    let q = results::whole_course((reading::read_all(s, b)->0).s, g, ids, others);
    let x = results::became(p, of);
    let y = results::became(q, of);
    let places = results::results(p);
    lemma_distinct_ids(plugins, list);
    assert forall|k: int| #[trigger] places.to_multiset().count(k) <= 1 by {
        results::law_one_result_each(start, g, ids, events, k);
    }
    places.lemma_multiset_has_no_duplicates_conv();
    assert forall|k: int| 0 <= k < places.len() implies of(#[trigger] places[k]) is Ok by {
        assert(x[k] == of(places[k]));
    }
    lemma_loaded_places(places, of);
    let one = outcome::plugins_of(outcome::all_ok(x));
    let two = outcome::plugins_of(outcome::all_ok(y));
    let f = |plugin: LoadedPlugin| Some(plugin@);
    gather::law_gathered_in_any_order(one, two, f);
    gather::lemma_gathered_map(one, f);
    gather::lemma_gathered_map(two, f);
    assert(gather::gathered(one, f) =~= merge::plugin_models(one));
    assert(gather::gathered(two, f) =~= merge::plugin_models(two));
    one_plan::law_one_plan_of_a_run(
        pack_plan::no_plan(),
        merge::plugin_models(one),
        merge::plugin_models(two),
        out,
        other_out,
    );
}

/// In a configuration with two plugins of one name, no order of reading leads to a course: the
/// plugins cannot be resolved, whatever was read of them.
pub proof fn law_one_name_twice_is_refused(
    plugins: Seq<PluginConfig>,
    reads: Seq<Read>,
    list: Seq<Resolved>,
)
    requires
        reads.to_multiset() == reads_of(plugins).to_multiset(),
        !reading::one_read_per_id(reads),
    ensures
        !resolve::loads(plugins, list),
{
    if resolve::loads(plugins, list) {
        lemma_one_read_per_id(plugins, list, reads);
    }
}

} // verus!
