//! What holds of every course of loading.

use crate::scheduler::graph;
use crate::scheduler::graph::{Loading, Phase};
use crate::scheduler::machine;
use crate::scheduler::machine::{Reply, Sched};
use crate::scheduler::{Act, EarlyEnd, Github, KeyOf, Revision};
use vstd::prelude::*;

verus! {

/// What can happen once all configuration is read.
pub enum LoadEvent {
    Early { key: KeyOf, end: EarlyEnd },
    Late { node: int },
    Chunk { list: Seq<(Seq<char>, Option<Seq<char>>)> },
    Catalog { id: Seq<char>, canonical: Seq<char>, g: Github, installed: bool },
    /// Nothing goes on any more.
    Idle,
}

/// What the scheduler does on an event.
pub open spec fn step(s: Sched, event: LoadEvent) -> Reply {
    match event {
        LoadEvent::Early { key, end } => machine::on_early(s, key, end),
        LoadEvent::Late { node } => machine::on_late(s, node),
        LoadEvent::Chunk { list } => machine::on_chunk(s, list),
        LoadEvent::Catalog { id, canonical, g, installed } => machine::on_catalog(
            s,
            id,
            canonical,
            g,
            installed,
        ),
        LoadEvent::Idle => machine::rescued(s, s.loading.nodes.len()),
    }
}

/// The state after a course of events.
pub open spec fn run(s: Sched, events: Seq<LoadEvent>) -> Sched
    decreases events.len(),
{
    if events.len() == 0 {
        s
    } else {
        step(run(s, events.drop_last()), events.last()).s
    }
}

/// No plugin is kept waiting whose late phase nothing holds.
pub open spec fn prompt(g: Loading) -> bool {
    forall|i: int| 0 <= i < g.nodes.len() ==> !graph::can_start_late(#[trigger] g.nodes[i])
}

/// The same plugins with the same dependencies.
pub open spec fn same_plugins(a: Loading, b: Loading) -> bool {
    a.nodes.len() == b.nodes.len() && a.depends == b.depends
}

proof fn lemma_rev_known(s: Sched, id: Seq<char>, rev: Revision)
    requires
        prompt(s.loading),
    ensures
        prompt(machine::rev_known(s, id, rev).s.loading),
        same_plugins(s.loading, machine::rev_known(s, id, rev).s.loading),
{
}

proof fn lemma_revs_known(s: Sched, ids: Seq<Seq<char>>, rev: Revision)
    requires
        prompt(s.loading),
    ensures
        prompt(machine::revs_known(s, ids, rev).s.loading),
        same_plugins(s.loading, machine::revs_known(s, ids, rev).s.loading),
    decreases ids.len(),
{
    if ids.len() > 0 {
        lemma_revs_known(s, ids.drop_last(), rev);
        lemma_rev_known(machine::revs_known(s, ids.drop_last(), rev).s, ids.last(), rev);
    }
}

proof fn lemma_repos_known(s: Sched, list: Seq<(Seq<char>, Option<Seq<char>>)>)
    requires
        prompt(s.loading),
    ensures
        prompt(machine::repos_known(s, list).s.loading),
        same_plugins(s.loading, machine::repos_known(s, list).s.loading),
    decreases list.len(),
{
    if list.len() > 0 {
        lemma_repos_known(s, list.drop_last());
        let r = machine::repos_known(s, list.drop_last());
        let canonical = list.last().0;
        lemma_revs_known(
            Sched { waiting: r.s.waiting.remove(canonical), ..r.s },
            crate::lazy_registration::ids_at(r.s.waiting, canonical),
            Revision::Resolved(list.last().1),
        );
    }
}

proof fn lemma_rescued(s: Sched, n: nat)
    requires
        prompt(s.loading),
        n <= s.loading.nodes.len(),
    ensures
        prompt(machine::rescued(s, n).s.loading),
        same_plugins(s.loading, machine::rescued(s, n).s.loading),
        machine::rescued(s, n).acts.len() == 0 ==> machine::rescued(s, n).s == s && forall|i: int|
            0 <= i < n ==> (#[trigger] s.loading.nodes[i]).phase != Phase::Waiting,
    decreases n,
{
    if n > 0 {
        lemma_rescued(s, (n - 1) as nat);
    }
}

proof fn lemma_step_prompt(s: Sched, event: LoadEvent)
    requires
        prompt(s.loading),
    ensures
        prompt(step(s, event).s.loading),
        same_plugins(s.loading, step(s, event).s.loading),
{
    match event {
        LoadEvent::Early { key, end } => {},
        LoadEvent::Late { node } => {},
        LoadEvent::Chunk { list } => {
            lemma_repos_known(s, list);
        },
        LoadEvent::Catalog { id, canonical, g, installed } => {
            if !installed {
                lemma_rev_known(s, id, Revision::Resolved(None));
            }
        },
        LoadEvent::Idle => {
            lemma_rescued(s, s.loading.nodes.len());
        },
    }
}

/// In every course of events no plugin is kept waiting whose late phase nothing holds, and the
/// plugins and their dependencies stay the same.
pub proof fn law_always_prompt(s: Sched, events: Seq<LoadEvent>)
    requires
        prompt(s.loading),
    ensures
        prompt(run(s, events).loading),
        same_plugins(s.loading, run(s, events).loading),
    decreases events.len(),
{
    if events.len() > 0 {
        law_always_prompt(s, events.drop_last());
        lemma_step_prompt(run(s, events.drop_last()), events.last());
    }
}

proof fn lemma_swept(s: Sched, n: nat)
    requires
        n <= s.loading.nodes.len(),
    ensures
        same_plugins(s.loading, machine::swept(s, n).s.loading),
        forall|i: int|
            0 <= i < n ==> !graph::can_start_late(
                #[trigger] machine::swept(s, n).s.loading.nodes[i],
            ),
    decreases n,
{
    if n > 0 {
        lemma_swept(s, (n - 1) as nat);
    }
}

proof fn lemma_promoted_same(s: Sched, ids: Seq<Seq<char>>, n: nat)
    requires
        n <= s.loading.nodes.len(),
    ensures
        same_plugins(s.loading, machine::promoted(s, ids, n).s.loading),
    decreases n,
{
    if n > 0 {
        lemma_promoted_same(s, ids, (n - 1) as nat);
    }
}

/// Once all configuration is read, whatever can begin has begun.
pub proof fn law_parsed_is_prompt(s: Sched, g: Loading, ids: Seq<Seq<char>>)
    requires
        g.nodes.len() == ids.len(),
    ensures
        prompt(machine::on_parsed(s, g, ids).s.loading),
        same_plugins(g, machine::on_parsed(s, g, ids).s.loading),
{
    lemma_promoted_same(Sched { loading: g, ..s }, ids, ids.len());
    let a = machine::promoted(Sched { loading: g, ..s }, ids, ids.len());
    let b = Sched { batch: crate::scheduler::left_over(a.s.batch, true), ..a.s };
    let tell = b.total > 0 && !b.progress_sent;
    let c = Sched { progress_sent: b.progress_sent || tell, ..b };
    lemma_swept(c, ids.len());
}

/// How far a phase is.
pub open spec fn rank_of(phase: Phase) -> int {
    match phase {
        Phase::Waiting => 0,
        Phase::Early => 1,
        Phase::Ready => 2,
        Phase::Late => 3,
        Phase::Finished => 4,
    }
}

/// The plugins are well formed, and none is less far than before.
pub open spec fn advances(a: Loading, b: Loading) -> bool {
    &&& graph::loading_wf(b)
    &&& a.nodes.len() == b.nodes.len()
    &&& forall|i: int|
        0 <= i < a.nodes.len() ==> rank_of(a.nodes[i].phase) <= rank_of(
            (#[trigger] b.nodes[i]).phase,
        )
}

/// Plugin `i` was not in its late phase before, and has begun it or is beyond it.
pub open spec fn entered_late(a: Loading, b: Loading, i: int) -> bool {
    0 <= i < a.nodes.len() && rank_of(a.nodes[i].phase) < 3 && rank_of(b.nodes[i].phase) >= 3
}

/// A reply begins the late phases of plugins that enter it, and of no others.
pub open spec fn begins_entered(a: Loading, r: Reply) -> bool {
    forall|i: int| #[trigger]
        r.acts.contains(Act::StartLate { node: i }) ==> entered_late(a, r.s.loading, i)
}

/// What every step keeps.
pub open spec fn orderly(a: Loading, r: Reply) -> bool {
    advances(a, r.s.loading) && begins_entered(a, r)
}

proof fn lemma_orderly_joined(a: Loading, r: Reply, next: Reply)
    requires
        orderly(a, r),
        orderly(r.s.loading, next),
    ensures
        orderly(a, Reply { s: next.s, acts: r.acts + next.acts }),
{
    let joined = Reply { s: next.s, acts: r.acts + next.acts };
    assert forall|i: int| #[trigger] joined.acts.contains(Act::StartLate { node: i }) implies entered_late(
        a,
        joined.s.loading,
        i,
    ) by {
        let act = Act::StartLate { node: i };
        let k = choose|k: int| 0 <= k < joined.acts.len() && joined.acts[k] == act;
        if k < r.acts.len() {
            assert(r.acts[k] == act);
            assert(r.acts.contains(act));
        } else {
            assert(next.acts[k - r.acts.len()] == act);
            assert(next.acts.contains(act));
        }
    }
}

proof fn lemma_ended_orderly(s: Sched, i: int)
    requires
        graph::loading_wf(s.loading),
        0 <= i < s.loading.nodes.len(),
        s.loading.nodes[i].phase != Phase::Finished,
    ensures
        orderly(s.loading, machine::ended(s, i)),
{
    graph::lemma_finished_wf(s.loading, i);
    let r = machine::ended(s, i);
    let started = graph::started_by(s.loading, i);
    assert forall|k: int| #[trigger] r.acts.contains(Act::StartLate { node: k }) implies entered_late(
        s.loading,
        r.s.loading,
        k,
    ) by {
        let n = choose|n: int| 0 <= n < r.acts.len() && r.acts[n] == (Act::StartLate { node: k });
        assert(started[n] == k);
        assert(graph::node_wf(s.loading, i));
        s.loading.nodes[i].dependents.lemma_filter_contains_rev(
            graph::starts_on_release(s.loading),
            k,
        );
    }
}

proof fn lemma_rev_orderly(s: Sched, id: Seq<char>, rev: Revision)
    requires
        graph::loading_wf(s.loading),
    ensures
        orderly(s.loading, machine::rev_known(s, id, rev)),
{
    let r = machine::rev_known(s, id, rev);
    if s.node_of.contains_key(id) {
        let i = s.node_of[id];
        if 0 <= i < s.loading.nodes.len() && s.loading.nodes[i].phase == Phase::Waiting {
            graph::lemma_phase_wf(s.loading, i, Phase::Early);
        }
    }
    assert forall|k: int| #[trigger] r.acts.contains(Act::StartLate { node: k }) implies entered_late(
        s.loading,
        r.s.loading,
        k,
    ) by {}
}

proof fn lemma_revs_orderly(s: Sched, ids: Seq<Seq<char>>, rev: Revision)
    requires
        graph::loading_wf(s.loading),
    ensures
        orderly(s.loading, machine::revs_known(s, ids, rev)),
    decreases ids.len(),
{
    if ids.len() > 0 {
        lemma_revs_orderly(s, ids.drop_last(), rev);
        let r = machine::revs_known(s, ids.drop_last(), rev);
        lemma_rev_orderly(r.s, ids.last(), rev);
        lemma_orderly_joined(s.loading, r, machine::rev_known(r.s, ids.last(), rev));
    }
}

proof fn lemma_repos_orderly(s: Sched, list: Seq<(Seq<char>, Option<Seq<char>>)>)
    requires
        graph::loading_wf(s.loading),
    ensures
        orderly(s.loading, machine::repos_known(s, list)),
    decreases list.len(),
{
    if list.len() > 0 {
        lemma_repos_orderly(s, list.drop_last());
        let r = machine::repos_known(s, list.drop_last());
        let canonical = list.last().0;
        let next = Sched { waiting: r.s.waiting.remove(canonical), ..r.s };
        let ids = crate::lazy_registration::ids_at(r.s.waiting, canonical);
        let rev = Revision::Resolved(list.last().1);
        lemma_revs_orderly(next, ids, rev);
        lemma_orderly_joined(s.loading, r, machine::revs_known(next, ids, rev));
    }
}

proof fn lemma_rescued_orderly(s: Sched, n: nat)
    requires
        graph::loading_wf(s.loading),
        n <= s.loading.nodes.len(),
    ensures
        orderly(s.loading, machine::rescued(s, n)),
    decreases n,
{
    if n > 0 {
        lemma_rescued_orderly(s, (n - 1) as nat);
        let r = machine::rescued(s, (n - 1) as nat);
        if r.s.loading.nodes[n - 1].phase == Phase::Waiting {
            let act = Act::StartEarly { key: KeyOf::Node(n - 1), rev: Revision::Resolved(None) };
            graph::lemma_phase_wf(r.s.loading, n - 1, Phase::Early);
            let next = Reply {
                s: Sched {
                    loading: graph::in_phase(r.s.loading, n - 1, Phase::Early),
                    ..r.s
                },
                acts: seq![act],
            };
            assert(next.acts[0] == act);
            assert(orderly(r.s.loading, next));
            lemma_orderly_joined(s.loading, r, next);
            assert(r.acts.push(act) =~= r.acts + next.acts);
        }
    }
}

proof fn lemma_early_orderly(s: Sched, key: KeyOf, i: int, end: EarlyEnd)
    requires
        graph::loading_wf(s.loading),
    ensures
        orderly(s.loading, machine::early_ended(s, key, i, end)),
{
    let r = machine::early_ended(s, key, i, end);
    if 0 <= i < s.loading.nodes.len() && s.loading.nodes[i].phase == Phase::Early {
        if end == EarlyEnd::Ready {
            let g = graph::in_phase(s.loading, i, Phase::Ready);
            graph::lemma_phase_wf(s.loading, i, Phase::Ready);
            if graph::can_start_late(g.nodes[i]) {
                graph::lemma_phase_wf(g, i, Phase::Late);
                assert(r.acts[0] == (Act::StartLate { node: i }));
            }
        } else {
            lemma_ended_orderly(s, i);
            let first = Reply { s, acts: seq![Act::Record { key }] };
            assert(first.acts[0] == (Act::Record { key }));
            assert(orderly(s.loading, first));
            lemma_orderly_joined(s.loading, first, machine::ended(s, i));
        }
    }
}

proof fn lemma_step_orderly(s: Sched, event: LoadEvent)
    requires
        graph::loading_wf(s.loading),
    ensures
        orderly(s.loading, step(s, event)),
{
    match event {
        LoadEvent::Early { key, end } => {
            match key {
                KeyOf::Node(i) => {
                    lemma_early_orderly(s, key, i, end);
                },
                KeyOf::Staged(id) => {
                    if s.node_of.contains_key(id) {
                        lemma_early_orderly(s, key, s.node_of[id], end);
                    }
                },
            }
        },
        LoadEvent::Late { node } => {
            if 0 <= node < s.loading.nodes.len() && s.loading.nodes[node].phase == Phase::Late {
                lemma_ended_orderly(s, node);
            }
        },
        LoadEvent::Chunk { list } => {
            lemma_repos_orderly(s, list);
            let r = machine::repos_known(s, list);
            let done = Sched { resolved: r.s.resolved + list.len(), ..r.s };
            if done.total > 0 && done.progress_sent {
                let next = Reply { s: done, acts: machine::told(done) };
                assert(next.acts[0] is Progress);
                assert(orderly(r.s.loading, next));
                lemma_orderly_joined(s.loading, r, next);
            } else {
                lemma_orderly_joined(s.loading, r, machine::quiet(done));
            }
        },
        LoadEvent::Catalog { id, canonical, g, installed } => {
            if installed {
                let r = machine::batched(s, canonical, id, g);
                let list = crate::scheduler::chunks(s.batch.push(g), false);
                assert forall|k: int| 0 <= k < r.acts.len() implies (#[trigger] r.acts[k]) is Resolve by {
                    assert(r.acts[k] == (Act::Resolve { chunk: list[k] }));
                }
            } else {
                lemma_rev_orderly(s, id, Revision::Resolved(None));
            }
        },
        LoadEvent::Idle => {
            lemma_rescued_orderly(s, s.loading.nodes.len());
        },
    }
}

/// In every course of events no plugin falls back behind a phase that it has reached.
pub proof fn law_phases_advance(s: Sched, events: Seq<LoadEvent>)
    requires
        graph::loading_wf(s.loading),
    ensures
        advances(s.loading, run(s, events).loading),
    decreases events.len(),
{
    if events.len() > 0 {
        law_phases_advance(s, events.drop_last());
        lemma_step_orderly(run(s, events.drop_last()), events.last());
    }
}

proof fn lemma_run_split(s: Sched, events: Seq<LoadEvent>, n: int)
    requires
        0 <= n <= events.len(),
    ensures
        run(s, events) == run(run(s, events.take(n)), events.skip(n)),
    decreases events.len(),
{
    if n == events.len() {
        assert(events.take(n) =~= events);
        assert(events.skip(n) =~= Seq::<LoadEvent>::empty());
    } else {
        lemma_run_split(s, events.drop_last(), n);
        assert(events.drop_last().take(n) =~= events.take(n));
        assert(events.drop_last().skip(n) =~= events.skip(n).drop_last());
        assert(events.skip(n).last() == events.last());
    }
}

/// The late phase of a plugin begins once at most, whatever happens.
pub proof fn law_late_begins_once(s: Sched, events: Seq<LoadEvent>, a: int, b: int, i: int)
    requires
        graph::loading_wf(s.loading),
        0 <= a < b < events.len(),
        step(run(s, events.take(a)), events[a]).acts.contains(Act::StartLate { node: i }),
    ensures
        !step(run(s, events.take(b)), events[b]).acts.contains(Act::StartLate { node: i }),
{
    let first = events.take(a + 1);
    assert(first.drop_last() =~= events.take(a));
    assert(first.last() == events[a]);
    law_phases_advance(s, events.take(a));
    lemma_step_orderly(run(s, events.take(a)), events[a]);
    let later = events.take(b);
    lemma_run_split(s, later, a + 1);
    assert(later.take(a + 1) =~= first);
    law_phases_advance(run(s, first), later.skip(a + 1));
    lemma_step_orderly(run(s, later), events[b]);
    if step(run(s, later), events[b]).acts.contains(Act::StartLate { node: i }) {
        assert(entered_late(run(s, later).loading, step(run(s, later), events[b]).s.loading, i));
    }
}

/// Loading is never stuck: from a state in which whatever can begin has begun, in every course of
/// events, when nothing goes on any more and no plugin waits for a revision, then, as
/// dependencies have no cycle, all plugins are finished.
pub proof fn law_never_stuck(s: Sched, events: Seq<LoadEvent>, rank: spec_fn(int) -> nat)
    requires
        graph::loading_wf(s.loading),
        graph::acyclic(s.loading, rank),
        prompt(s.loading),
        forall|i: int|
            0 <= i < run(s, events).loading.nodes.len() ==> (#[trigger] run(
                s,
                events,
            ).loading.nodes[i]).phase != Phase::Early && run(s, events).loading.nodes[i].phase
                != Phase::Late,
        step(run(s, events), LoadEvent::Idle).acts.len() == 0,
    ensures
        machine::all_finished(run(s, events).loading),
{
    law_always_prompt(s, events);
    law_phases_advance(s, events);
    let t = run(s, events);
    assert(graph::acyclic(t.loading, rank)) by {
        assert(t.loading.depends == s.loading.depends);
    }
    lemma_rescued(t, t.loading.nodes.len());
    graph::law_no_deadlock(t.loading, rank);
}

} // verus!
