//! Every plugin has one result, in whatever order plugins are read and finish.

use crate::scheduler;
use crate::scheduler::gather;
use crate::scheduler::graph;
use crate::scheduler::graph::{Loading, Phase};
use crate::scheduler::laws;
use crate::scheduler::laws::LoadEvent;
use crate::scheduler::machine;
use crate::scheduler::machine::{Reply, Sched};
use crate::scheduler::outcome;
use crate::scheduler::outcome::Outcome;
use crate::scheduler::reading;
use crate::scheduler::reading::Read;
use crate::scheduler::{Act, EarlyEnd, KeyOf, Revision, StagedState};
use vstd::prelude::*;

verus! {

/// The plugin whose result an action settles: that of an early phase which is recorded, or of a
/// late phase which begins.
pub open spec fn result_of(places: Map<Seq<char>, int>) -> spec_fn(Act) -> Option<int> {
    |act: Act|
        match act {
            Act::StartLate { node } => Some(node),
            Act::Record { key: KeyOf::Node(i) } => Some(i),
            Act::Record { key: KeyOf::Staged(id) } => if places.contains_key(id) {
                Some(places[id])
            } else {
                None
            },
            _ => None,
        }
}

/// How often the result of plugin `i` is settled.
pub open spec fn settled(acts: Seq<Act>, places: Map<Seq<char>, int>, i: int) -> int
    decreases acts.len(),
{
    if acts.len() == 0 {
        0
    } else {
        settled(acts.drop_last(), places, i) + if result_of(places)(acts.last()) == Some(i) {
            1int
        } else {
            0int
        }
    }
}

/// One if the result of plugin `i` is settled, as it is finished or in its late phase.
pub open spec fn is_settled(g: Loading, i: int) -> int {
    if 0 <= i < g.nodes.len() && (g.nodes[i].phase == Phase::Late || g.nodes[i].phase
        == Phase::Finished) {
        1
    } else {
        0
    }
}

/// A reply settles the results of the plugins that are settled after it and were not before.
pub open spec fn tallies(places: Map<Seq<char>, int>, before: Loading, r: Reply) -> bool {
    forall|i: int|
        #![trigger settled(r.acts, places, i)]
        settled(r.acts, places, i) == is_settled(r.s.loading, i) - is_settled(before, i)
}

proof fn lemma_settled_joined(a: Seq<Act>, b: Seq<Act>, places: Map<Seq<char>, int>, i: int)
    ensures
        settled(a + b, places, i) == settled(a, places, i) + settled(b, places, i),
    decreases b.len(),
{
    if b.len() == 0 {
        assert(a + b =~= a);
    } else {
        assert((a + b).drop_last() =~= a + b.drop_last());
        lemma_settled_joined(a, b.drop_last(), places, i);
    }
}

proof fn lemma_settled_none(acts: Seq<Act>, places: Map<Seq<char>, int>)
    requires
        forall|k: int| 0 <= k < acts.len() ==> result_of(places)(#[trigger] acts[k]) is None,
    ensures
        forall|i: int| #[trigger] settled(acts, places, i) == 0,
    decreases acts.len(),
{
    if acts.len() > 0 {
        let front = acts.drop_last();
        assert forall|k: int| 0 <= k < front.len() implies result_of(places)(
            #[trigger] front[k],
        ) is None by {
            assert(front[k] == acts[k]);
        }
        lemma_settled_none(front, places);
        assert(acts.last() == acts[acts.len() - 1]);
        assert(result_of(places)(acts[acts.len() - 1]) is None);
        assert forall|i: int| #[trigger] settled(acts, places, i) == 0 by {
            assert(settled(front, places, i) == 0);
        }
    }
}

proof fn lemma_settled_one(act: Act, places: Map<Seq<char>, int>, i: int)
    ensures
        settled(seq![act], places, i) == (if result_of(places)(act) == Some(i) {
            1int
        } else {
            0int
        }),
{
    let one = seq![act];
    assert(one.last() == act);
    assert(one.drop_last().len() == 0);
    assert(settled(one.drop_last(), places, i) == 0);
}

proof fn lemma_tallies_joined(places: Map<Seq<char>, int>, before: Loading, r: Reply, next: Reply)
    requires
        tallies(places, before, r),
        tallies(places, r.s.loading, next),
    ensures
        tallies(places, before, Reply { s: next.s, acts: r.acts + next.acts }),
{
    let all = r.acts + next.acts;
    assert forall|i: int|
        #![trigger settled(all, places, i)]
        settled(all, places, i) == is_settled(next.s.loading, i) - is_settled(before, i) by {
        lemma_settled_joined(r.acts, next.acts, places, i);
        assert(settled(r.acts, places, i) == is_settled(r.s.loading, i) - is_settled(before, i));
        assert(settled(next.acts, places, i) == is_settled(next.s.loading, i) - is_settled(
            r.s.loading,
            i,
        ));
    }
}

/// The late phases of the members of an ascending list that meet a condition begin once each.
proof fn lemma_late_acts(
    list: Seq<int>,
    p: spec_fn(int) -> bool,
    places: Map<Seq<char>, int>,
    i: int,
)
    requires
        graph::ascends(list),
    ensures
        settled(machine::late_acts(list.filter(p)), places, i) == (if list.contains(i) && p(i) {
            1int
        } else {
            0int
        }),
    decreases list.len(),
{
    reveal(Seq::filter);
    let acts = machine::late_acts(list.filter(p));
    if list.len() > 0 {
        let front = list.drop_last();
        let last = list.last();
        assert forall|a: int, b: int| 0 <= a < b < front.len() implies #[trigger] front[a]
            < #[trigger] front[b] by {
            assert(list[a] < list[b]);
        }
        lemma_late_acts(front, p, places, i);
        let before = machine::late_acts(front.filter(p));
        assert(list.contains(i) <==> front.contains(i) || i == last) by {
            if front.contains(i) {
                let k = choose|k: int| 0 <= k < front.len() && front[k] == i;
                assert(list[k] == i);
            }
            if i == last {
                assert(list[list.len() - 1] == i);
            }
            if list.contains(i) && i != last {
                let k = choose|k: int| 0 <= k < list.len() && list[k] == i;
                assert(front[k] == i);
            }
        }
        assert(!front.contains(last)) by {
            if front.contains(last) {
                let k = choose|k: int| 0 <= k < front.len() && front[k] == last;
                assert(list[k] < list[list.len() - 1]);
            }
        }
        if p(last) {
            assert(list.filter(p) == front.filter(p).push(last));
            assert(acts =~= before.push(Act::StartLate { node: last }));
            assert(acts.drop_last() =~= before);
        }
    } else {
        assert(list.filter(p).len() == 0);
        assert(acts.len() == 0);
    }
}

/// When a plugin is finished, the results of those that begin their late phase are settled.
proof fn lemma_ended_tally(s: Sched, k: int, places: Map<Seq<char>, int>, i: int)
    requires
        graph::loading_wf(s.loading),
        0 <= k < s.loading.nodes.len(),
        s.loading.nodes[k].phase != Phase::Finished,
    ensures
        ({
            let r = machine::ended(s, k);
            settled(r.acts, places, i) == is_settled(r.s.loading, i) - is_settled(s.loading, i) - (
            if i == k && s.loading.nodes[k].phase != Phase::Late {
                1int
            } else {
                0int
            })
        }),
{
    let g = s.loading;
    let d = g.nodes[k].dependents;
    assert(graph::node_wf(g, k));
    lemma_late_acts(d, graph::starts_on_release(g), places, i);
    if i == k && d.contains(k) {
        assert(g.depends[k].contains(k));
        assert(false);
    }
    if d.contains(i) {
        assert(0 <= i < g.nodes.len());
    }
}

proof fn lemma_rev_tally(s: Sched, id: Seq<char>, rev: Revision, places: Map<Seq<char>, int>)
    ensures
        tallies(places, s.loading, machine::rev_known(s, id, rev)),
{
    let r = machine::rev_known(s, id, rev);
    lemma_settled_none(r.acts, places);
    assert forall|i: int|
        #![trigger settled(r.acts, places, i)]
        settled(r.acts, places, i) == is_settled(r.s.loading, i) - is_settled(s.loading, i) by {}
}

proof fn lemma_quiet_tally(before: Sched, s: Sched, places: Map<Seq<char>, int>)
    requires
        before.loading == s.loading,
    ensures
        tallies(places, before.loading, machine::quiet(s)),
{
    lemma_settled_none(Seq::empty(), places);
}

proof fn lemma_revs_tally(s: Sched, ids: Seq<Seq<char>>, rev: Revision, places: Map<Seq<char>, int>)
    ensures
        tallies(places, s.loading, machine::revs_known(s, ids, rev)),
        machine::revs_known(s, ids, rev).s.node_of == s.node_of,
    decreases ids.len(),
{
    if ids.len() == 0 {
        lemma_quiet_tally(s, s, places);
    } else {
        lemma_revs_tally(s, ids.drop_last(), rev, places);
        let r = machine::revs_known(s, ids.drop_last(), rev);
        lemma_rev_tally(r.s, ids.last(), rev, places);
        lemma_tallies_joined(places, s.loading, r, machine::rev_known(r.s, ids.last(), rev));
    }
}

proof fn lemma_repos_tally(
    s: Sched,
    list: Seq<(Seq<char>, Option<Seq<char>>)>,
    places: Map<Seq<char>, int>,
)
    ensures
        tallies(places, s.loading, machine::repos_known(s, list)),
        machine::repos_known(s, list).s.node_of == s.node_of,
    decreases list.len(),
{
    if list.len() == 0 {
        lemma_quiet_tally(s, s, places);
    } else {
        lemma_repos_tally(s, list.drop_last(), places);
        let r = machine::repos_known(s, list.drop_last());
        let canonical = list.last().0;
        let next = Sched { waiting: r.s.waiting.remove(canonical), ..r.s };
        let ids = crate::lazy_registration::ids_at(r.s.waiting, canonical);
        let rev = Revision::Resolved(list.last().1);
        lemma_revs_tally(next, ids, rev, places);
        lemma_tallies_joined(places, s.loading, r, machine::revs_known(next, ids, rev));
    }
}

proof fn lemma_rescued_tally(s: Sched, n: nat, places: Map<Seq<char>, int>)
    requires
        n <= s.loading.nodes.len(),
    ensures
        tallies(places, s.loading, machine::rescued(s, n)),
        machine::rescued(s, n).s.node_of == s.node_of,
        machine::rescued(s, n).s.loading.nodes.len() == s.loading.nodes.len(),
    decreases n,
{
    if n == 0 {
        lemma_quiet_tally(s, s, places);
    } else {
        lemma_rescued_tally(s, (n - 1) as nat, places);
        let r = machine::rescued(s, (n - 1) as nat);
        if r.s.loading.nodes[n - 1].phase == Phase::Waiting {
            let act = Act::StartEarly { key: KeyOf::Node(n - 1), rev: Revision::Resolved(None) };
            let next = Reply {
                s: Sched {
                    loading: graph::in_phase(r.s.loading, n - 1, Phase::Early),
                    ..r.s
                },
                acts: seq![act],
            };
            lemma_settled_none(next.acts, places);
            assert(tallies(places, r.s.loading, next));
            lemma_tallies_joined(places, s.loading, r, next);
            assert(r.acts.push(act) =~= r.acts + next.acts);
        }
    }
}

proof fn lemma_early_tally(
    s: Sched,
    key: KeyOf,
    k: int,
    end: EarlyEnd,
    places: Map<Seq<char>, int>,
)
    requires
        graph::loading_wf(s.loading),
        result_of(places)(Act::Record { key }) == Some(k),
    ensures
        tallies(places, s.loading, machine::early_ended(s, key, k, end)),
{
    let r = machine::early_ended(s, key, k, end);
    if 0 <= k < s.loading.nodes.len() && s.loading.nodes[k].phase == Phase::Early {
        assert forall|i: int|
            #![trigger settled(r.acts, places, i)]
            settled(r.acts, places, i) == is_settled(r.s.loading, i) - is_settled(s.loading, i) by {
            if end == EarlyEnd::Ready {
                let g = graph::in_phase(s.loading, k, Phase::Ready);
                if graph::can_start_late(g.nodes[k]) {
                    lemma_settled_one(Act::StartLate { node: k }, places, i);
                } else {
                    lemma_settled_none(r.acts, places);
                }
            } else {
                lemma_ended_tally(s, k, places, i);
                lemma_settled_one(Act::Record { key }, places, i);
                lemma_settled_joined(
                    seq![Act::Record { key }],
                    machine::ended(s, k).acts,
                    places,
                    i,
                );
            }
        }
    } else {
        lemma_quiet_tally(s, s, places);
    }
}

/// Every step settles the results of the plugins that it brings to their late phase or to their
/// end, and of no others.
proof fn lemma_step_tally(s: Sched, event: LoadEvent)
    requires
        graph::loading_wf(s.loading),
    ensures
        tallies(s.node_of, s.loading, laws::step(s, event)),
        laws::step(s, event).s.node_of == s.node_of,
{
    let places = s.node_of;
    let r = laws::step(s, event);
    match event {
        LoadEvent::Early { key, end } => {
            match key {
                KeyOf::Node(i) => {
                    lemma_early_tally(s, key, i, end, places);
                },
                KeyOf::Staged(id) => {
                    if s.node_of.contains_key(id) {
                        lemma_early_tally(s, key, s.node_of[id], end, places);
                    } else if s.staging.contains_key(id) {
                        lemma_quiet_tally(
                            s,
                            machine::staged(s, id, StagedState::Done(end)),
                            places,
                        );
                    } else {
                        lemma_quiet_tally(s, s, places);
                    }
                },
            }
        },
        LoadEvent::Late { node } => {
            if 0 <= node < s.loading.nodes.len() && s.loading.nodes[node].phase == Phase::Late {
                assert forall|i: int|
                    #![trigger settled(r.acts, places, i)]
                    settled(r.acts, places, i) == is_settled(r.s.loading, i) - is_settled(
                        s.loading,
                        i,
                    ) by {
                    lemma_ended_tally(s, node, places, i);
                }
            } else {
                lemma_quiet_tally(s, s, places);
            }
        },
        LoadEvent::Chunk { list } => {
            lemma_repos_tally(s, list, places);
            let known = machine::repos_known(s, list);
            let done = Sched { resolved: known.s.resolved + list.len(), ..known.s };
            let next = Reply {
                s: done,
                acts: if done.total > 0 && done.progress_sent {
                    machine::told(done)
                } else {
                    Seq::empty()
                },
            };
            lemma_settled_none(next.acts, places);
            assert(tallies(places, known.s.loading, next));
            lemma_tallies_joined(places, s.loading, known, next);
        },
        LoadEvent::Catalog { id, canonical, g, installed } => {
            if installed {
                let list = scheduler::chunks(s.batch.push(g), false);
                assert forall|k: int| 0 <= k < r.acts.len() implies result_of(places)(
                    #[trigger] r.acts[k],
                ) is None by {
                    assert(r.acts[k] == (Act::Resolve { chunk: list[k] }));
                }
                lemma_settled_none(r.acts, places);
            } else {
                lemma_rev_tally(s, id, Revision::Resolved(None), places);
            }
        },
        LoadEvent::Idle => {
            lemma_rescued_tally(s, s.loading.nodes.len(), places);
        },
    }
}

/// All that is done in a course of events.
pub open spec fn acts_of(s: Sched, events: Seq<LoadEvent>) -> Seq<Act>
    decreases events.len(),
{
    if events.len() == 0 {
        Seq::empty()
    } else {
        acts_of(s, events.drop_last()) + laws::step(
            laws::run(s, events.drop_last()),
            events.last(),
        ).acts
    }
}

proof fn lemma_run_tally(s: Sched, events: Seq<LoadEvent>)
    requires
        graph::loading_wf(s.loading),
    ensures
        tallies(s.node_of, s.loading, Reply { s: laws::run(s, events), acts: acts_of(s, events) }),
        laws::run(s, events).node_of == s.node_of,
    decreases events.len(),
{
    if events.len() == 0 {
        lemma_quiet_tally(s, s, s.node_of);
    } else {
        let front = events.drop_last();
        lemma_run_tally(s, front);
        laws::law_phases_advance(s, front);
        let now = laws::run(s, front);
        lemma_step_tally(now, events.last());
        lemma_tallies_joined(
            s.node_of,
            s.loading,
            Reply { s: now, acts: acts_of(s, front) },
            laws::step(now, events.last()),
        );
    }
}

/// The plugins that were read before know their places.
pub open spec fn places_known(
    places: Map<Seq<char>, int>,
    s: Sched,
    ids: Seq<Seq<char>>,
    n: nat,
) -> bool {
    forall|k: int|
        0 <= k < n && s.staging.contains_key(#[trigger] ids[k]) ==> places.contains_key(ids[k])
            && places[ids[k]] == k
}

proof fn lemma_promoted_places(s: Sched, ids: Seq<Seq<char>>, n: nat)
    requires
        n <= ids.len(),
        ids.no_duplicates(),
    ensures
        places_known(machine::promoted(s, ids, n).s.node_of, s, ids, n),
        forall|k: int|
            n <= k < ids.len() ==> (machine::promoted(s, ids, n).s.staging.contains_key(
                #[trigger] ids[k],
            ) <==> s.staging.contains_key(ids[k])),
    decreases n,
{
    if n > 0 {
        lemma_promoted_places(s, ids, (n - 1) as nat);
    }
}

proof fn lemma_promoted_tally(
    s: Sched,
    ids: Seq<Seq<char>>,
    n: nat,
    places: Map<Seq<char>, int>,
)
    requires
        graph::is_start(s.loading),
        n <= ids.len(),
        ids.len() == s.loading.nodes.len(),
        ids.no_duplicates(),
        places_known(places, s, ids, ids.len()),
    ensures
        ({
            let r = machine::promoted(s, ids, n);
            &&& tallies(places, s.loading, r)
            &&& graph::loading_wf(r.s.loading)
            &&& r.s.loading.nodes.len() == s.loading.nodes.len()
            &&& forall|k: int|
                n <= k < ids.len() ==> (#[trigger] r.s.loading.nodes[k]).phase == Phase::Waiting
        }),
    decreases n,
{
    if n == 0 {
        lemma_quiet_tally(s, s, places);
    } else {
        let m = (n - 1) as nat;
        lemma_promoted_tally(s, ids, m, places);
        lemma_promoted_places(s, ids, m);
        let r = machine::promoted(s, ids, m);
        let i0 = n - 1;
        let id = ids[i0];
        let next = machine::promoted_one(r.s, id, i0);
        assert(r.s.loading.nodes[i0].phase == Phase::Waiting);
        if !r.s.staging.contains_key(id) {
            lemma_quiet_tally(r.s, r.s, places);
        } else {
            let s1 = Sched {
                staging: r.s.staging.remove(id),
                node_of: r.s.node_of.insert(id, i0),
                ..r.s
            };
            match r.s.staging[id] {
                StagedState::Pending => {
                    lemma_quiet_tally(r.s, s1, places);
                },
                StagedState::InFlight => {
                    graph::lemma_phase_wf(r.s.loading, i0, Phase::Early);
                    lemma_settled_none(next.acts, places);
                },
                StagedState::Done(EarlyEnd::Ready) => {
                    graph::lemma_phase_wf(r.s.loading, i0, Phase::Ready);
                    lemma_settled_none(next.acts, places);
                },
                StagedState::Done(_) => {
                    graph::lemma_finished_wf(r.s.loading, i0);
                    assert(s.staging.contains_key(ids[i0]));
                    let act = Act::Record { key: KeyOf::Staged(id) };
                    assert forall|i: int|
                        #![trigger settled(next.acts, places, i)]
                        settled(next.acts, places, i) == is_settled(next.s.loading, i)
                            - is_settled(r.s.loading, i) by {
                        lemma_ended_tally(s1, i0, places, i);
                        lemma_settled_one(act, places, i);
                        lemma_settled_joined(
                            seq![act],
                            machine::ended(s1, i0).acts,
                            places,
                            i,
                        );
                    }
                },
            }
        }
        assert(tallies(places, r.s.loading, next));
        lemma_tallies_joined(places, s.loading, r, next);
    }
}

proof fn lemma_swept_tally(s: Sched, n: nat, places: Map<Seq<char>, int>)
    requires
        graph::loading_wf(s.loading),
        n <= s.loading.nodes.len(),
    ensures
        ({
            let r = machine::swept(s, n);
            &&& tallies(places, s.loading, r)
            &&& graph::loading_wf(r.s.loading)
            &&& r.s.loading.nodes.len() == s.loading.nodes.len()
            &&& r.s.node_of == s.node_of
        }),
    decreases n,
{
    if n == 0 {
        lemma_quiet_tally(s, s, places);
    } else {
        lemma_swept_tally(s, (n - 1) as nat, places);
        let r = machine::swept(s, (n - 1) as nat);
        if graph::can_start_late(r.s.loading.nodes[n - 1]) {
            let act = Act::StartLate { node: n - 1 };
            graph::lemma_phase_wf(r.s.loading, n - 1, Phase::Late);
            let next = Reply {
                s: Sched { loading: graph::in_phase(r.s.loading, n - 1, Phase::Late), ..r.s },
                acts: seq![act],
            };
            assert forall|i: int|
                #![trigger settled(next.acts, places, i)]
                settled(next.acts, places, i) == is_settled(next.s.loading, i) - is_settled(
                    r.s.loading,
                    i,
                ) by {
                lemma_settled_one(act, places, i);
            }
            lemma_tallies_joined(places, s.loading, r, next);
            assert(r.acts.push(act) =~= r.acts + next.acts);
        }
    }
}

/// What is done when all configuration is read settles what it should.
proof fn lemma_parsed_tally(s: Sched, g: Loading, ids: Seq<Seq<char>>)
    requires
        graph::is_start(g),
        ids.len() == g.nodes.len(),
        ids.no_duplicates(),
    ensures
        ({
            let r = machine::on_parsed(s, g, ids);
            &&& tallies(r.s.node_of, g, r)
            &&& graph::loading_wf(r.s.loading)
        }),
{
    let start = Sched { loading: g, ..s };
    let n = ids.len();
    let a = machine::promoted(start, ids, n);
    let places = a.s.node_of;
    lemma_promoted_places(start, ids, n);
    lemma_promoted_tally(start, ids, n, places);
    let b = Sched { batch: scheduler::left_over(a.s.batch, true), ..a.s };
    let tell = b.total > 0 && !b.progress_sent;
    let c = Sched { progress_sent: b.progress_sent || tell, ..b };
    let list = scheduler::chunks(a.s.batch, true);
    let ask = Reply { s: b, acts: scheduler::resolve_acts(list) };
    assert forall|k: int| 0 <= k < ask.acts.len() implies result_of(places)(
        #[trigger] ask.acts[k],
    ) is None by {
        assert(ask.acts[k] == (Act::Resolve { chunk: list[k] }));
    }
    lemma_settled_none(ask.acts, places);
    assert(tallies(places, a.s.loading, ask));
    lemma_tallies_joined(places, g, a, ask);
    let tale = Reply {
        s: c,
        acts: if tell {
            machine::told(b)
        } else {
            Seq::empty()
        },
    };
    lemma_settled_none(tale.acts, places);
    assert(tallies(places, b.loading, tale));
    let first = Reply { s: b, acts: a.acts + ask.acts };
    lemma_tallies_joined(places, g, first, tale);
    lemma_swept_tally(c, n, places);
    lemma_tallies_joined(
        places,
        g,
        Reply { s: c, acts: first.acts + tale.acts },
        machine::swept(c, n),
    );
}

/// All that is done from the end of the configuration on.
pub open spec fn whole_course(s: Sched, g: Loading, ids: Seq<Seq<char>>, events: Seq<LoadEvent>) -> Reply {
    let r = machine::on_parsed(s, g, ids);
    Reply { s: laws::run(r.s, events), acts: r.acts + acts_of(r.s, events) }
}

/// The plugins in the order in which their results are settled.
pub open spec fn results(r: Reply) -> Seq<int> {
    gather::gathered(r.acts, result_of(r.s.node_of))
}

proof fn lemma_settled_count(acts: Seq<Act>, places: Map<Seq<char>, int>, i: int)
    ensures
        settled(acts, places, i) == gather::gathered(acts, result_of(places)).to_multiset().count(
            i,
        ),
    decreases acts.len(),
{
    let all = gather::gathered(acts, result_of(places));
    if acts.len() == 0 {
        vstd::seq_lib::to_multiset_len(all);
        vstd::seq_lib::to_multiset_contains(all, i);
        assert(!all.contains(i));
    } else {
        lemma_settled_count(acts.drop_last(), places, i);
        let front = gather::gathered(acts.drop_last(), result_of(places));
        match result_of(places)(acts.last()) {
            Some(k) => {
                vstd::seq_lib::to_multiset_build(front, k);
            },
            None => {},
        }
    }
}

/// When all plugins are finished, each has had its result settled once.
pub proof fn law_one_result_each(
    s: Sched,
    g: Loading,
    ids: Seq<Seq<char>>,
    events: Seq<LoadEvent>,
    i: int,
)
    requires
        graph::is_start(g),
        ids.len() == g.nodes.len(),
        ids.no_duplicates(),
        machine::all_finished(whole_course(s, g, ids, events).s.loading),
    ensures
        results(whole_course(s, g, ids, events)).to_multiset().count(i) == (if 0 <= i
            < g.nodes.len() {
            1nat
        } else {
            0nat
        }),
{
    let r = machine::on_parsed(s, g, ids);
    let end = whole_course(s, g, ids, events);
    lemma_parsed_tally(s, g, ids);
    lemma_run_tally(r.s, events);
    lemma_tallies_joined(
        r.s.node_of,
        g,
        r,
        Reply { s: laws::run(r.s, events), acts: acts_of(r.s, events) },
    );
    laws::law_phases_advance(r.s, events);
    laws::law_parsed_is_prompt(s, g, ids);
    lemma_settled_count(end.acts, end.s.node_of, i);
    assert(settled(end.acts, end.s.node_of, i) == is_settled(end.s.loading, i) - is_settled(g, i));
    if 0 <= i < g.nodes.len() {
        assert(g.nodes[i].phase == Phase::Waiting);
        assert(end.s.loading.nodes[i].phase == Phase::Finished);
    }
}

/// What becomes of the plugins, in the order in which their results are settled.
pub open spec fn became<P, E>(
    r: Reply,
    of: spec_fn(int) -> Result<Outcome<P>, E>,
) -> Seq<Result<Outcome<P>, E>> {
    results(r).map_values(|i: int| of(i))
}

/// Where plugins are read in two orders and finish in two orders, the same becomes of them.
pub(crate) proof fn lemma_courses_agree<P, E>(
    s: Sched,
    a: Seq<Read>,
    b: Seq<Read>,
    g: Loading,
    ids: Seq<Seq<char>>,
    events: Seq<LoadEvent>,
    others: Seq<LoadEvent>,
    of: spec_fn(int) -> Result<Outcome<P>, E>,
)
    requires
        a.to_multiset() == b.to_multiset(),
        reading::one_read_per_id(a),
        reading::read_all(s, a) is Some,
        graph::is_start(g),
        ids.len() == g.nodes.len(),
        ids.no_duplicates(),
        machine::all_finished(
            whole_course((reading::read_all(s, a)->0).s, g, ids, events).s.loading,
        ),
        machine::all_finished(
            whole_course((reading::read_all(s, b)->0).s, g, ids, others).s.loading,
        ),
    ensures
        reading::read_all(s, b) is Some,
        ({
            let x = became(whole_course((reading::read_all(s, a)->0).s, g, ids, events), of);
            let y = became(whole_course((reading::read_all(s, b)->0).s, g, ids, others), of);
            &&& x.to_multiset() == y.to_multiset()
            &&& (forall|i: int| 0 <= i < x.len() ==> (#[trigger] x[i]) is Ok) ==> {
                &&& forall|i: int| 0 <= i < y.len() ==> (#[trigger] y[i]) is Ok
                &&& outcome::plugins_of(outcome::all_ok(x)).to_multiset() == outcome::plugins_of(
                    outcome::all_ok(y),
                ).to_multiset()
                &&& outcome::locks_of(outcome::all_ok(x)).to_multiset() == outcome::locks_of(
                    outcome::all_ok(y),
                ).to_multiset()
                &&& outcome::removals_of(outcome::all_ok(x)).to_multiset() == outcome::removals_of(
                    outcome::all_ok(y),
                ).to_multiset()
            }
        }),
{
    reading::law_read_in_any_order(s, a, b);
    let p = whole_course((reading::read_all(s, a)->0).s, g, ids, events);
    let q = whole_course((reading::read_all(s, b)->0).s, g, ids, others);
    let x = became(p, of);
    let y = became(q, of);
    assert forall|i: int| #[trigger] results(p).to_multiset().count(i) == results(
        q,
    ).to_multiset().count(i) by {
        law_one_result_each((reading::read_all(s, a)->0).s, g, ids, events, i);
        law_one_result_each((reading::read_all(s, b)->0).s, g, ids, others, i);
    }
    assert(results(p).to_multiset() =~= results(q).to_multiset());
    let f = |i: int| Some(of(i));
    gather::law_gathered_in_any_order(results(p), results(q), f);
    gather::lemma_gathered_map(results(p), f);
    gather::lemma_gathered_map(results(q), f);
    assert(gather::gathered(results(p), f) =~= x);
    assert(gather::gathered(results(q), f) =~= y);
    if forall|i: int| 0 <= i < x.len() ==> (#[trigger] x[i]) is Ok {
        gather::law_outcomes_in_any_order(x, y);
    }
}

} // verus!
