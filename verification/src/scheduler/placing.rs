//! How plugins take their places, and what their phases lead to.

use crate::scheduler;
use crate::scheduler::graph;
use crate::scheduler::graph::{Loading, Phase};
use crate::scheduler::machine;
use crate::scheduler::machine::Sched;
use crate::scheduler::outcome;
use crate::scheduler::outcome::Outcome;
use crate::scheduler::planning;
use crate::scheduler::{Act, EarlyEnd, KeyOf, Revision, StagedState};
use vstd::prelude::*;

verus! {

/// All that the plugin waits for is finished.
pub open spec fn free(g: Loading, i: int) -> bool {
    forall|j: int| #[trigger] g.depends[i].contains(j) ==> g.nodes[j].phase == Phase::Finished
}

/// A plugin whose early phase ended well goes on at once exactly if all that it waits for is
/// finished, and else waits for that; nothing else changes.
pub proof fn law_early_ends_well(s: Sched, i: int, k: int)
    requires
        graph::loading_wf(s.loading),
        0 <= i < s.loading.nodes.len(),
        s.loading.nodes[i].phase == Phase::Early,
        0 <= k < s.loading.nodes.len(),
    ensures
        ({
            let r = machine::on_early(s, KeyOf::Node(i), EarlyEnd::Ready);
            &&& free(s.loading, i) ==> r.acts == seq![Act::StartLate { node: i }]
                && r.s.loading.nodes[i].phase == Phase::Late
            &&& !free(s.loading, i) ==> r.acts.len() == 0 && r.s.loading.nodes[i].phase
                == Phase::Ready
            &&& k != i ==> r.s.loading.nodes[k] == s.loading.nodes[k]
            &&& r.s.staging == s.staging && r.s.batch == s.batch && r.s.waiting == s.waiting
        }),
{
    assert(graph::node_wf(s.loading, i));
    graph::lemma_none_unfinished(s.loading.nodes, s.loading.depends[i]);
}

/// A plugin that ends with its early phase is recorded and finished, and lets exactly those begin
/// their late phases that were ready, waited for it, and have nothing left to wait for.
pub proof fn law_early_ends_all(s: Sched, i: int, end: EarlyEnd, k: int)
    requires
        graph::loading_wf(s.loading),
        0 <= i < s.loading.nodes.len(),
        s.loading.nodes[i].phase == Phase::Early,
        end != EarlyEnd::Ready,
        0 <= k < s.loading.nodes.len(),
    ensures
        ({
            let r = machine::on_early(s, KeyOf::Node(i), end);
            &&& r.acts.len() > 0 && r.acts[0] == (Act::Record { key: KeyOf::Node(i) })
            &&& r.s.loading.nodes[i].phase == Phase::Finished
            &&& r.acts.contains(Act::StartLate { node: k }) <==> k != i && s.loading.nodes[k].phase
                == Phase::Ready && s.loading.depends[k].contains(i) && forall|j: int| #[trigger]
                s.loading.depends[k].contains(j) && j != i ==> s.loading.nodes[j].phase
                    == Phase::Finished
        }),
{
    let g = s.loading;
    let r = machine::on_early(s, KeyOf::Node(i), end);
    let list = graph::started_by(g, i);
    let dependents = g.nodes[i].dependents;
    assert(graph::node_wf(g, i) && graph::node_wf(g, k));
    planning::lemma_filter_contains(dependents, graph::starts_on_release(g), k);
    assert(r.acts.contains(Act::StartLate { node: k }) <==> list.contains(k)) by {
        if r.acts.contains(Act::StartLate { node: k }) {
            let n = choose|n: int| 0 <= n < r.acts.len() && r.acts[n] == (Act::StartLate { node: k });
            assert(n > 0);
            assert(list[n - 1] == k);
        }
        if list.contains(k) {
            let n = choose|n: int| 0 <= n < list.len() && list[n] == k;
            assert(r.acts[n + 1] == (Act::StartLate { node: k }));
        }
    }
    assert(dependents.contains(k) <==> g.depends[k].contains(i));
    if g.depends[k].contains(i) {
        planning::lemma_one_left(g, i, k);
    }
}

/// What is told of a plugin that is not in its early phase changes nothing.
pub proof fn law_early_only_once(s: Sched, i: int, end: EarlyEnd)
    requires
        i < 0 || i >= s.loading.nodes.len() || s.loading.nodes[i].phase != Phase::Early,
    ensures
        machine::on_early(s, KeyOf::Node(i), end).s == s,
        machine::on_early(s, KeyOf::Node(i), end).acts.len() == 0,
{
}

/// An early phase that ends before the plugin has a place is kept until it has; nothing begins.
pub proof fn law_early_is_kept(s: Sched, id: Seq<char>, end: EarlyEnd)
    requires
        !s.node_of.contains_key(id),
        s.staging.contains_key(id),
    ensures
        ({
            let r = machine::on_early(s, KeyOf::Staged(id), end);
            &&& r.acts.len() == 0
            &&& r.s.staging == s.staging.insert(id, StagedState::Done(end))
            &&& r.s.loading == s.loading && r.s.batch == s.batch && r.s.waiting == s.waiting
                && r.s.node_of == s.node_of
        }),
{
}

/// An early phase that ends after the plugin has a place counts for the place.
pub proof fn law_early_at_place(s: Sched, id: Seq<char>, end: EarlyEnd)
    requires
        s.node_of.contains_key(id),
    ensures
        ({
            let a = machine::on_early(s, KeyOf::Staged(id), end);
            let b = machine::on_early(s, KeyOf::Node(s.node_of[id]), end);
            &&& a.s == b.s
            &&& a.acts.len() == b.acts.len()
            &&& forall|n: int|
                0 <= n < a.acts.len() ==> #[trigger] a.acts[n] == b.acts[n] || (a.acts[n]
                    == (Act::Record { key: KeyOf::Staged(id) }) && b.acts[n] == (Act::Record {
                    key: KeyOf::Node(s.node_of[id]),
                }))
        }),
{
}

/// A plugin that was read takes its place as far as it has come: waiting for its revision, in its
/// early phase, ready, or finished, which then is recorded.
pub proof fn law_takes_its_place(s: Sched, id: Seq<char>, i: int)
    requires
        s.staging.contains_key(id),
        0 <= i < s.loading.nodes.len(),
        s.loading.nodes[i].phase == Phase::Waiting,
    ensures
        ({
            let r = machine::promoted_one(s, id, i);
            &&& !r.s.staging.contains_key(id)
            &&& r.s.node_of.contains_key(id) && r.s.node_of[id] == i
            &&& s.staging[id] == StagedState::Pending ==> r.s.loading.nodes[i].phase
                == Phase::Waiting && r.acts.len() == 0
            &&& s.staging[id] == StagedState::InFlight ==> r.s.loading.nodes[i].phase == Phase::Early
                && r.acts.len() == 0
            &&& s.staging[id] == StagedState::Done(EarlyEnd::Ready) ==> r.s.loading.nodes[i].phase
                == Phase::Ready && r.acts.len() == 0
            &&& (s.staging[id] matches StagedState::Done(end) && end != EarlyEnd::Ready)
                ==> r.s.loading.nodes[i].phase == Phase::Finished && r.acts.len() > 0 && r.acts[0]
                == (Act::Record { key: KeyOf::Staged(id) })
        }),
{
}

proof fn lemma_swept_acts(s: Sched, n: nat, i: int)
    requires
        n <= s.loading.nodes.len(),
        0 <= i < s.loading.nodes.len(),
    ensures
        ({
            let r = machine::swept(s, n);
            &&& r.s.loading.nodes.len() == s.loading.nodes.len()
            &&& i >= n ==> r.s.loading.nodes[i] == s.loading.nodes[i]
            &&& i < n && graph::can_start_late(s.loading.nodes[i]) ==> r.acts.contains(
                Act::StartLate { node: i },
            ) && r.s.loading.nodes[i].phase == Phase::Late
            &&& i < n && !graph::can_start_late(s.loading.nodes[i]) ==> r.s.loading.nodes[i]
                == s.loading.nodes[i]
            &&& r.acts.contains(Act::StartLate { node: i }) ==> i < n && graph::can_start_late(
                s.loading.nodes[i],
            )
            &&& r.s.batch == s.batch && r.s.waiting == s.waiting && r.s.staging == s.staging
        }),
    decreases n,
{
    if n > 0 {
        let m = (n - 1) as nat;
        let before = machine::swept(s, m);
        lemma_swept_acts(s, m, i);
        lemma_swept_acts(s, m, m as int);
        crate::order::lemma_contains_push(
            before.acts,
            Act::StartLate { node: m as int },
            Act::StartLate { node: i },
        );
    }
}

/// The sweep begins exactly the late phases that nothing holds.
pub proof fn law_sweep_begins(s: Sched, i: int)
    requires
        graph::loading_wf(s.loading),
        0 <= i < s.loading.nodes.len(),
    ensures
        machine::swept(s, s.loading.nodes.len()).acts.contains(Act::StartLate { node: i })
            <==> s.loading.nodes[i].phase == Phase::Ready && free(s.loading, i),
{
    lemma_swept_acts(s, s.loading.nodes.len(), i);
    assert(graph::node_wf(s.loading, i));
    graph::lemma_none_unfinished(s.loading.nodes, s.loading.depends[i]);
}

proof fn lemma_promoted_keeps(s: Sched, ids: Seq<Seq<char>>, n: nat)
    ensures
        machine::promoted(s, ids, n).s.batch == s.batch,
        machine::promoted(s, ids, n).s.total == s.total,
        machine::promoted(s, ids, n).s.resolved == s.resolved,
        machine::promoted(s, ids, n).s.progress_sent == s.progress_sent,
        forall|k: int|
            0 <= k < machine::promoted(s, ids, n).acts.len() ==> !((#[trigger] machine::promoted(
                s,
                ids,
                n,
            ).acts[k]) is Resolve),
    decreases n,
{
    if n > 0 {
        lemma_promoted_keeps(s, ids, (n - 1) as nat);
        let r = machine::promoted(s, ids, (n - 1) as nat);
        let next = machine::promoted_one(r.s, ids[n - 1], n - 1);
        let all = r.acts + next.acts;
        assert forall|k: int| 0 <= k < all.len() implies !((#[trigger] all[k]) is Resolve) by {
            if k < r.acts.len() {
                assert(all[k] == r.acts[k]);
            } else {
                assert(all[k] == next.acts[k - r.acts.len()]);
            }
        }
    }
}

/// Once all configuration is read, the chunks that are asked for are all that was to be asked for,
/// in order, and nothing is left.
pub proof fn law_rest_is_asked(s: Sched, g: Loading, ids: Seq<Seq<char>>)
    ensures
        machine::on_parsed(s, g, ids).s.batch.len() == 0,
        ({
            let list = scheduler::chunks(s.batch, true);
            &&& scheduler::in_all(list) == s.batch
            &&& forall|k: int|
                0 <= k < list.len() ==> machine::on_parsed(s, g, ids).acts.contains(
                    Act::Resolve { chunk: #[trigger] list[k] },
                )
        }),
{
    let start = Sched { loading: g, ..s };
    let a = machine::promoted(start, ids, ids.len());
    lemma_promoted_keeps(start, ids, ids.len());
    let list = scheduler::chunks(s.batch, true);
    scheduler::law_chunks(s.batch, true);
    let b = Sched { batch: scheduler::left_over(a.s.batch, true), ..a.s };
    let tell = b.total > 0 && !b.progress_sent;
    let c = Sched { progress_sent: b.progress_sent || tell, ..b };
    lemma_swept_keeps(c, ids.len());
    let asked = scheduler::resolve_acts(list);
    let d = machine::swept(c, ids.len());
    let told = if tell {
        machine::told(b)
    } else {
        Seq::empty()
    };
    let acts = machine::on_parsed(s, g, ids).acts;
    assert(acts == a.acts + asked + told + d.acts);
    assert(scheduler::left_over(s.batch, true).len() == 0);
    assert(scheduler::in_all(list) =~= s.batch);
    assert forall|k: int| 0 <= k < list.len() implies acts.contains(
        Act::Resolve { chunk: #[trigger] list[k] },
    ) by {
        assert(asked[k] == (Act::Resolve { chunk: list[k] }));
        assert(acts[a.acts.len() + k] == asked[k]);
    }
}

proof fn lemma_swept_keeps(s: Sched, n: nat)
    ensures
        machine::swept(s, n).s.batch == s.batch,
    decreases n,
{
    if n > 0 {
        lemma_swept_keeps(s, (n - 1) as nat);
    }
}

/// Plugins that still wait when nothing else is left begin, and their repositories decide on their
/// revisions; no other begins.
pub proof fn law_rescued(s: Sched, n: nat, i: int)
    requires
        n <= s.loading.nodes.len(),
        0 <= i < s.loading.nodes.len(),
    ensures
        ({
            let r = machine::rescued(s, n);
            let act = Act::StartEarly { key: KeyOf::Node(i), rev: Revision::Resolved(None) };
            &&& r.s.loading.nodes.len() == s.loading.nodes.len()
            &&& r.acts.contains(act) <==> i < n && s.loading.nodes[i].phase == Phase::Waiting
            &&& r.acts.contains(act) ==> r.s.loading.nodes[i].phase == Phase::Early
            &&& !r.acts.contains(act) ==> r.s.loading.nodes[i] == s.loading.nodes[i]
        }),
    decreases n,
{
    if n > 0 {
        let m = (n - 1) as nat;
        law_rescued(s, m, i);
        law_rescued(s, m, m as int);
        crate::order::lemma_contains_push(
            machine::rescued(s, m).acts,
            Act::StartEarly { key: KeyOf::Node(m as int), rev: Revision::Resolved(None) },
            Act::StartEarly { key: KeyOf::Node(i), rev: Revision::Resolved(None) },
        );
    }
}

/// Results one after the other hold the plugins, the locks and the repositories to give up of the
/// first and then of the second; and one alone holds its own.
pub proof fn law_results_add_up<P>(a: Seq<Outcome<P>>, b: Seq<Outcome<P>>, one: Outcome<P>)
    ensures
        outcome::plugins_of(a + b) == outcome::plugins_of(a) + outcome::plugins_of(b),
        outcome::locks_of(a + b) == outcome::locks_of(a) + outcome::locks_of(b),
        outcome::removals_of(a + b) == outcome::removals_of(a) + outcome::removals_of(b),
        one.loaded matches Some((p, lock)) ==> outcome::plugins_of(seq![one]) == seq![p] && (lock is Some
            ==> outcome::locks_of(seq![one]) == seq![lock->0]) && (lock is None
            ==> outcome::locks_of(seq![one]).len() == 0),
        one.loaded is None ==> outcome::plugins_of(seq![one]).len() == 0 && outcome::locks_of(
            seq![one],
        ).len() == 0,
        one.canon_to_remove matches Some(canon) ==> outcome::removals_of(seq![one]) == seq![canon],
        one.canon_to_remove is None ==> outcome::removals_of(seq![one]).len() == 0,
    decreases b.len(),
{
    let single = seq![one];
    let none = Seq::<Outcome<P>>::empty();
    assert(single.drop_last() =~= none);
    assert(single.last() == one);
    assert(outcome::plugins_of(none) =~= Seq::<P>::empty());
    assert(outcome::locks_of(none) =~= Seq::<(String, String)>::empty());
    assert(outcome::removals_of(none) =~= Seq::<String>::empty());
    if let Some((p, lock)) = one.loaded {
        assert(outcome::plugins_of(single) =~= seq![p]);
        if let Some(lock) = lock {
            assert(outcome::locks_of(single) =~= seq![lock]);
        }
    }
    if let Some(canon) = one.canon_to_remove {
        assert(outcome::removals_of(single) =~= seq![canon]);
    }
    if b.len() == 0 {
        assert(a + b =~= a);
        assert(b =~= none);
        assert(outcome::plugins_of(a + b) =~= outcome::plugins_of(a) + outcome::plugins_of(b));
        assert(outcome::locks_of(a + b) =~= outcome::locks_of(a) + outcome::locks_of(b));
        assert(outcome::removals_of(a + b) =~= outcome::removals_of(a) + outcome::removals_of(b));
    } else {
        law_results_add_up(a, b.drop_last(), one);
        assert((a + b).drop_last() =~= a + b.drop_last());
        assert((a + b).last() == b.last());
        assert(outcome::plugins_of(a + b) =~= outcome::plugins_of(a) + outcome::plugins_of(b));
        assert(outcome::locks_of(a + b) =~= outcome::locks_of(a) + outcome::locks_of(b));
        assert(outcome::removals_of(a + b) =~= outcome::removals_of(a) + outcome::removals_of(b));
    }
}

/// The lock of a repository is given up exactly if nothing was loaded of it; and an error of the
/// early part is the result.
pub proof fn law_lock_given_up<P, E>(
    loaded: (P, Option<(String, String)>),
    canonical: Option<String>,
    e: E,
)
    ensures
        outcome::late_outcome(Some(loaded), canonical).loaded == Some(loaded),
        outcome::late_outcome(Some(loaded), canonical).canon_to_remove is None,
        outcome::late_outcome::<P>(None, canonical).loaded is None,
        outcome::late_outcome::<P>(None, canonical).canon_to_remove == canonical,
        outcome::early_outcome::<P, E>(Some(Err(e))) == Err::<Outcome<P>, E>(e),
        outcome::early_outcome::<P, E>(Some(Ok(canonical))) is Ok,
        (outcome::early_outcome::<P, E>(Some(Ok(canonical)))->Ok_0).loaded is None,
        (outcome::early_outcome::<P, E>(Some(Ok(canonical)))->Ok_0).canon_to_remove == canonical,
        outcome::early_outcome::<P, E>(None) is Ok,
        (outcome::early_outcome::<P, E>(None)->Ok_0).loaded is None,
        (outcome::early_outcome::<P, E>(None)->Ok_0).canon_to_remove is None,
{
}

} // verus!
