//! How the revisions of plugins are found, and when their early phases begin.

use crate::lazy_registration;
use crate::scheduler;
use crate::scheduler::graph;
use crate::scheduler::graph::{Loading, NodeState, Phase};
use crate::scheduler::machine;
use crate::scheduler::machine::{Reply, Sched};
use crate::scheduler::reading;
use crate::scheduler::{Act, Github, KeyOf, Plan, Request, Revision, Settings, StagedState};
use vstd::prelude::*;

verus! {

/// The text is that of a commit: forty hexadecimal digits.
pub open spec fn names_commit(rev: Seq<char>) -> bool {
    rev.len() == 40 && forall|i: int|
        0 <= i < rev.len() ==> {
            let c = #[trigger] rev[i];
            ('0' <= c && c <= '9') || ('a' <= c && c <= 'f') || ('A' <= c && c <= 'F')
        }
}

/// The run finds revisions by itself, many at a time.
pub open spec fn finds_many(settings: Settings) -> bool {
    !settings.locked && settings.do_graphql
}

/// The request names a commit.
pub open spec fn asks_for_commit(r: Request) -> bool {
    r.rev is Some && names_commit(r.rev->0)
}

/// The request is for something at GitHub that has to be resolved: a default branch, a branch or a
/// tag, but neither a commit nor a pattern.
pub open spec fn to_be_resolved(r: Request) -> bool {
    r.github is Some && !asks_for_commit(r) && (r.rev is Some ==> !r.rev->0.contains('*'))
}

/// A revision counts as resolved only if it is a commit.  A branch or a tag at GitHub is resolved
/// with others in every run that can do so, in a run that updates only if the plugin is installed;
/// what is elsewhere, or names a pattern, is left to its repository; and where there is nothing to
/// find, the lock file or the repository decides.
pub proof fn law_planned_revision(settings: Settings, request: Option<Request>)
    ensures
        ({
            let plan = scheduler::plan_for(settings, request);
            &&& plan == Plan::Known(Revision::Auto) <==> request is None || !finds_many(settings)
            &&& (plan matches Plan::Known(Revision::Resolved(rev)) && rev is Some) <==> request is Some
                && finds_many(settings) && asks_for_commit(request->0)
            &&& plan matches Plan::Known(Revision::Resolved(rev)) ==> rev is Some ==> rev
                == request->0.rev && names_commit(rev->0)
            &&& plan is Resolve <==> request is Some && finds_many(settings) && to_be_resolved(
                request->0,
            ) && !settings.update
            &&& plan is IfInstalled <==> request is Some && finds_many(settings) && to_be_resolved(
                request->0,
            ) && settings.update
            &&& plan == Plan::Known(Revision::Resolved(None)) <==> request is Some && finds_many(
                settings,
            ) && !asks_for_commit(request->0) && !to_be_resolved(request->0)
        }),
{
    if let Some(r) = request {
        if let Some(rev) = r.rev {
            assert(scheduler::is_full_hash(rev) <==> names_commit(rev)) by {
                if scheduler::is_full_hash(rev) {
                    assert forall|i: int| 0 <= i < rev.len() implies {
                        let c = #[trigger] rev[i];
                        ('0' <= c && c <= '9') || ('a' <= c && c <= 'f') || ('A' <= c && c <= 'F')
                    } by {
                        assert(crate::generation::hex_digit(rev[i]));
                    }
                }
            }
        }
    }
}

/// An early phase begins among the actions.
pub open spec fn begins(acts: Seq<Act>, key: KeyOf, rev: Revision) -> bool {
    acts.contains(Act::StartEarly { key, rev })
}

/// A plugin that is read begins at once with the revision that is known, and with no other; one
/// that has to be resolved is asked for at the revision of its entry, and then waits under its
/// repository; and in a run that updates it is first found out whether it is installed.
pub proof fn law_read_plugin(s: Sched, id: Seq<char>, request: Option<Request>)
    ensures
        ({
            let r = machine::on_plugin(s, id, request);
            let waits = request is Some && finds_many(s.settings) && to_be_resolved(request->0);
            &&& !waits ==> r.s.staging == s.staging.insert(id, StagedState::InFlight) && r.s.batch
                == s.batch && r.s.waiting == s.waiting
            &&& request is None || !finds_many(s.settings) ==> r.acts == seq![
                Act::StartEarly { key: KeyOf::Staged(id), rev: Revision::Auto },
            ]
            &&& request is Some && finds_many(s.settings) && asks_for_commit(request->0) ==> r.acts
                == seq![
                Act::StartEarly {
                    key: KeyOf::Staged(id),
                    rev: Revision::Resolved(request->0.rev),
                },
            ]
            &&& request is Some && finds_many(s.settings) && !asks_for_commit(request->0)
                && !waits ==> r.acts == seq![
                Act::StartEarly { key: KeyOf::Staged(id), rev: Revision::Resolved(None) },
            ]
            &&& waits ==> r.s.staging == s.staging.insert(id, StagedState::Pending) && forall|
                key: KeyOf,
                rev: Revision,
            | !#[trigger] begins(r.acts, key, rev)
            &&& waits && s.settings.update ==> r.acts == seq![
                Act::CheckCatalog {
                    id,
                    canonical: request->0.canonical,
                    owner: (request->0.github->0).0,
                    repo: (request->0.github->0).1,
                    wanted: request->0.rev,
                },
            ]
            &&& waits && !s.settings.update ==> is_asked(
                s,
                r,
                request->0.canonical,
                id,
                Github {
                    owner: (request->0.github->0).0,
                    repo: (request->0.github->0).1,
                    rev: request->0.rev,
                },
            )
        }),
{
    law_planned_revision(s.settings, request);
    let r = machine::on_plugin(s, id, request);
    if request is Some {
        if finds_many(s.settings) && to_be_resolved(request->0) {
            if s.settings.update {
                assert forall|key: KeyOf, rev: Revision| !#[trigger] begins(r.acts, key, rev) by {
                    if begins(r.acts, key, rev) {
                        assert(r.acts[0] == (Act::StartEarly { key, rev }));
                    }
                }
            } else {
                let g = Github {
                    owner: (request->0.github->0).0,
                    repo: (request->0.github->0).1,
                    rev: request->0.rev,
                };
                let noted = machine::noted(s, request);
                lemma_batched(noted, request->0.canonical, id, g);
            }
        }
    }
}

/// The revision is asked for behind those that were to be asked for already, in chunks or later,
/// and the plugin waits behind those that wait for the repository already.
pub open spec fn is_asked(s: Sched, r: Reply, canonical: Seq<char>, id: Seq<char>, g: Github) -> bool {
    &&& reading::asked(r.acts) + r.s.batch == s.batch.push(g)
    &&& lazy_registration::ids_at(r.s.waiting, canonical) == lazy_registration::ids_at(
        s.waiting,
        canonical,
    ).push(id)
    &&& forall|c: Seq<char>|
        c != canonical ==> #[trigger] lazy_registration::ids_at(r.s.waiting, c)
            == lazy_registration::ids_at(s.waiting, c)
    &&& r.s.total == s.total + 1
}

proof fn lemma_batched(s: Sched, canonical: Seq<char>, id: Seq<char>, g: Github)
    ensures
        is_asked(s, machine::batched(s, canonical, id, g), canonical, id, g),
        forall|key: KeyOf, rev: Revision| !#[trigger]
            begins(machine::batched(s, canonical, id, g).acts, key, rev),
{
    let r = machine::batched(s, canonical, id, g);
    let list = scheduler::chunks(s.batch.push(g), false);
    scheduler::law_chunks(s.batch.push(g), false);
    reading::lemma_asked_chunks(list);
    assert(lazy_registration::ids_at(r.s.waiting, canonical) =~= lazy_registration::ids_at(
        s.waiting,
        canonical,
    ).push(id));
    assert forall|key: KeyOf, rev: Revision| !#[trigger] begins(r.acts, key, rev) by {
        if begins(r.acts, key, rev) {
            let i = choose|i: int| 0 <= i < r.acts.len() && r.acts[i] == (Act::StartEarly { key, rev });
            assert(r.acts[i] == (Act::Resolve { chunk: list[i] }));
        }
    }
}

/// A plugin that a run updates is resolved with others if it is installed; if it is not, its early
/// phase begins, and its repository decides on the revision.
pub proof fn law_catalog_answer(
    s: Sched,
    id: Seq<char>,
    canonical: Seq<char>,
    g: Github,
    installed: bool,
)
    ensures
        ({
            let r = machine::on_catalog(s, id, canonical, g, installed);
            &&& installed ==> is_asked(s, r, canonical, id, g)
            &&& !installed && waits_at(s, id) is Some ==> r.acts == seq![
                Act::StartEarly { key: waits_at(s, id)->0, rev: Revision::Resolved(None) },
            ]
        }),
{
    lemma_batched(s, canonical, id, g);
}

/// Where the plugin is addressed, if it waits for a revision: by its place, or by its name while it
/// has none.
pub open spec fn waits_at(s: Sched, id: Seq<char>) -> Option<KeyOf> {
    if s.node_of.contains_key(id) {
        if 0 <= s.node_of[id] < s.loading.nodes.len() && s.loading.nodes[s.node_of[id]].phase
            == Phase::Waiting {
            Some(KeyOf::Node(s.node_of[id]))
        } else {
            None
        }
    } else if s.staging.contains_key(id) && s.staging[id] == StagedState::Pending {
        Some(KeyOf::Staged(id))
    } else {
        None
    }
}

proof fn lemma_rev_known(s: Sched, id: Seq<char>, rev: Revision, other: Seq<char>)
    ensures
        ({
            let r = machine::rev_known(s, id, rev);
            &&& waits_at(s, id) is Some ==> r.acts == seq![
                Act::StartEarly { key: waits_at(s, id)->0, rev },
            ]
            &&& waits_at(s, id) is None ==> r.acts.len() == 0
            &&& waits_at(r.s, id) is None
            &&& waits_at(r.s, other) is Some ==> waits_at(r.s, other) == waits_at(s, other)
            &&& waits_at(s, other) is Some && waits_at(s, other) != waits_at(s, id) ==> waits_at(
                r.s,
                other,
            ) == waits_at(s, other)
            &&& r.s.waiting == s.waiting
        }),
{
}

/// Every early phase that begins is that of a plugin that waited, at the revision; and every plugin
/// of the list that waited begins.
proof fn lemma_revs_known(s: Sched, ids: Seq<Seq<char>>, rev: Revision, other: Seq<char>)
    ensures
        ({
            let r = machine::revs_known(s, ids, rev);
            &&& r.s.waiting == s.waiting
            &&& ids.contains(other) ==> waits_at(r.s, other) is None
            &&& waits_at(s, other) is Some && ids.contains(other) ==> begins(
                r.acts,
                waits_at(s, other)->0,
                rev,
            )
            &&& waits_at(r.s, other) is Some ==> waits_at(r.s, other) == waits_at(s, other)
            &&& waits_at(s, other) is Some && waits_at(r.s, other) is None ==> begins(
                r.acts,
                waits_at(s, other)->0,
                rev,
            )
            &&& forall|i: int|
                0 <= i < r.acts.len() ==> exists|k: int|
                    0 <= k < ids.len() && waits_at(s, #[trigger] ids[k]) is Some && (
                    #[trigger] r.acts[i]) == (Act::StartEarly {
                        key: waits_at(s, ids[k])->0,
                        rev,
                    })
        }),
    decreases ids.len(),
{
    if ids.len() > 0 {
        let front = ids.drop_last();
        let last = ids.last();
        let r = machine::revs_known(s, front, rev);
        let next = machine::rev_known(r.s, last, rev);
        let all = r.acts + next.acts;
        lemma_revs_known(s, front, rev, other);
        lemma_revs_known(s, front, rev, last);
        lemma_rev_known(r.s, last, rev, other);
        assert(ids[ids.len() - 1] == last);
        assert(ids =~= front.push(last));
        crate::order::lemma_contains_push(front, last, other);
        if waits_at(s, other) is Some && (ids.contains(other) || waits_at(next.s, other) is None) {
            let act = Act::StartEarly { key: waits_at(s, other)->0, rev };
            if waits_at(r.s, other) is None {
                assert(begins(r.acts, waits_at(s, other)->0, rev));
                let i = choose|i: int| 0 <= i < r.acts.len() && r.acts[i] == act;
                assert(all[i] == act);
            } else {
                assert(waits_at(r.s, other) == waits_at(r.s, last));
                assert(next.acts[0] == act);
                assert(all[r.acts.len() as int] == act);
            }
        }
        assert forall|i: int| 0 <= i < all.len() implies exists|k: int|
            0 <= k < ids.len() && waits_at(s, #[trigger] ids[k]) is Some && (#[trigger] all[i])
                == (Act::StartEarly { key: waits_at(s, ids[k])->0, rev }) by {
            if i < r.acts.len() {
                assert(all[i] == r.acts[i]);
                let k = choose|k: int|
                    0 <= k < front.len() && waits_at(s, #[trigger] front[k]) is Some && r.acts[i]
                        == (Act::StartEarly { key: waits_at(s, front[k])->0, rev });
                assert(ids[k] == front[k]);
            } else {
                assert(waits_at(r.s, last) is Some);
                assert(next.acts.len() == 1);
                assert(all[i] == next.acts[0]);
            }
        }
    }
}

/// Once the revision of a repository is resolved, exactly the plugins that wait for it begin, each
/// at the commit that was found; without one their repositories decide.
pub proof fn law_resolved_begin(s: Sched, canonical: Seq<char>, oid: Option<Seq<char>>, id: Seq<char>)
    requires
        !s.progress_sent,
    ensures
        ({
            let r = machine::on_chunk(s, seq![(canonical, oid)]);
            let ids = lazy_registration::ids_at(s.waiting, canonical);
            &&& ids.contains(id) && waits_at(s, id) is Some ==> begins(
                r.acts,
                waits_at(s, id)->0,
                Revision::Resolved(oid),
            )
            &&& forall|i: int|
                0 <= i < r.acts.len() ==> exists|k: int|
                    0 <= k < ids.len() && waits_at(s, #[trigger] ids[k]) is Some && (
                    #[trigger] r.acts[i]) == (Act::StartEarly {
                        key: waits_at(s, ids[k])->0,
                        rev: Revision::Resolved(oid),
                    })
            &&& !r.s.waiting.contains_key(canonical)
            &&& r.s.resolved == s.resolved + 1
        }),
{
    let list = seq![(canonical, oid)];
    let ids = lazy_registration::ids_at(s.waiting, canonical);
    let start = Sched { waiting: s.waiting.remove(canonical), ..s };
    assert(list.drop_last() =~= Seq::<(Seq<char>, Option<Seq<char>>)>::empty());
    assert(list.last() == (canonical, oid));
    assert(machine::repos_known(s, list.drop_last()) == machine::quiet(s));
    let known = machine::revs_known(start, ids, Revision::Resolved(oid));
    lemma_revs_known(start, ids, Revision::Resolved(oid), id);
    assert(waits_at(start, id) == waits_at(s, id));
    assert(known.acts + Seq::<Act>::empty() =~= known.acts);
    assert(Seq::<Act>::empty() + known.acts =~= known.acts);
    lemma_progress_kept(start, ids, Revision::Resolved(oid));
    let r = machine::on_chunk(s, list);
    assert(r.acts =~= known.acts);
    assert forall|i: int| 0 <= i < r.acts.len() implies exists|k: int|
        0 <= k < ids.len() && waits_at(s, #[trigger] ids[k]) is Some && (#[trigger] r.acts[i]) == (
        Act::StartEarly { key: waits_at(s, ids[k])->0, rev: Revision::Resolved(oid) }) by {
        let k = choose|k: int|
            0 <= k < ids.len() && waits_at(start, #[trigger] ids[k]) is Some && known.acts[i] == (
            Act::StartEarly { key: waits_at(start, ids[k])->0, rev: Revision::Resolved(oid) });
        assert(waits_at(s, ids[k]) == waits_at(start, ids[k]));
    }
}

proof fn lemma_progress_kept(s: Sched, ids: Seq<Seq<char>>, rev: Revision)
    ensures
        machine::revs_known(s, ids, rev).s.progress_sent == s.progress_sent,
        machine::revs_known(s, ids, rev).s.resolved == s.resolved,
        machine::revs_known(s, ids, rev).s.total == s.total,
    decreases ids.len(),
{
    if ids.len() > 0 {
        lemma_progress_kept(s, ids.drop_last(), rev);
    }
}

/// The repository has this owner and this name.
pub open spec fn is_repository(g: Github, owner: Seq<char>, repo: Seq<char>) -> bool {
    g.owner == owner && g.repo == repo
}

/// What is known of a chunk once it is resolved: each repository under its name at GitHub, with
/// what was found first for this owner and this name and for no other, or without a commit where
/// nothing was found or the request failed.
pub proof fn law_answers(chunk: Seq<Github>, found: Option<Seq<Github>>, k: int)
    requires
        0 <= k < chunk.len(),
    ensures
        ({
            let list = scheduler::answers(chunk, found);
            let oid = list[k].1;
            &&& list.len() == chunk.len()
            &&& list[k].0 == "github.com/"@ + chunk[k].owner + "/"@ + chunk[k].repo
            &&& found is None ==> oid is None
            &&& found is Some && (forall|i: int|
                0 <= i < found->0.len() ==> !is_repository(
                    #[trigger] found->0[i],
                    chunk[k].owner,
                    chunk[k].repo,
                )) ==> oid is None
            &&& forall|i: int|
                found is Some && 0 <= i < found->0.len() && is_repository(
                    #[trigger] found->0[i],
                    chunk[k].owner,
                    chunk[k].repo,
                ) && (forall|j: int|
                    0 <= j < i ==> !is_repository(
                        #[trigger] found->0[j],
                        chunk[k].owner,
                        chunk[k].repo,
                    )) ==> oid == found->0[i].rev
        }),
{
    if let Some(list) = found {
        lemma_oid_of(list, chunk[k].owner, chunk[k].repo);
    }
}

proof fn lemma_oid_of(found: Seq<Github>, owner: Seq<char>, repo: Seq<char>)
    ensures
        ({
            let oid = scheduler::oid_of(found, owner, repo);
            &&& (forall|i: int|
                0 <= i < found.len() ==> !is_repository(#[trigger] found[i], owner, repo)) ==> oid
                is None
            &&& forall|i: int|
                0 <= i < found.len() && is_repository(#[trigger] found[i], owner, repo) && (forall|
                    j: int,
                |
                    0 <= j < i ==> !is_repository(#[trigger] found[j], owner, repo)) ==> oid
                    == found[i].rev
        }),
    decreases found.len(),
{
    if found.len() > 0 {
        let rest = found.skip(1);
        let oid = scheduler::oid_of(found, owner, repo);
        lemma_oid_of(rest, owner, repo);
        if !is_repository(found[0], owner, repo) {
            if forall|i: int| 0 <= i < found.len() ==> !is_repository(
                #[trigger] found[i],
                owner,
                repo,
            ) {
                assert forall|i: int| 0 <= i < rest.len() implies !is_repository(
                    #[trigger] rest[i],
                    owner,
                    repo,
                ) by {
                    assert(rest[i] == found[i + 1]);
                }
            }
            assert forall|i: int|
                0 <= i < found.len() && is_repository(#[trigger] found[i], owner, repo) && (forall|
                    j: int,
                |
                    0 <= j < i ==> !is_repository(#[trigger] found[j], owner, repo)) implies oid
                == found[i].rev by {
                assert(rest[i - 1] == found[i]);
                assert forall|j: int| 0 <= j < i - 1 implies !is_repository(
                    #[trigger] rest[j],
                    owner,
                    repo,
                ) by {
                    assert(rest[j] == found[j + 1]);
                }
            }
        }
    }
}

/// A plugin waits for exactly the other plugins whose names it lists.
pub proof fn law_waits_for_named(
    g: Loading,
    ids: Seq<Seq<char>>,
    depends: Seq<Seq<Seq<char>>>,
    i: int,
    j: int,
)
    requires
        graph::depends_by_name(g, ids, depends),
        ids.no_duplicates(),
        depends.len() == ids.len(),
        0 <= i < ids.len(),
    ensures
        g.depends[i].contains(j) <==> 0 <= j < ids.len() && j != i && depends[i].contains(ids[j]),
{
    assert(g.depends[i].contains(j) <==> graph::depends_on(ids, depends[i], i, j));
    if graph::depends_on(ids, depends[i], i, j) {
        let k = choose|k: int|
            0 <= k < depends[i].len() && graph::place_of(ids, #[trigger] depends[i][k]) == Some(j);
        graph::lemma_place_of(ids, depends[i][k]);
        assert(depends[i].contains(ids[j]));
    }
    if 0 <= j < ids.len() && j != i && depends[i].contains(ids[j]) {
        let k = choose|k: int| 0 <= k < depends[i].len() && depends[i][k] == ids[j];
        graph::lemma_place_of(ids, depends[i][k]);
        assert(ids.contains(ids[j]));
        assert(graph::place_of(ids, depends[i][k]) == Some(j));
    }
}

/// A plugin that ends lets exactly those begin their late phases that were ready, waited for it,
/// and now have nothing left to wait for.
pub proof fn law_end_lets_begin(s: Sched, i: int, k: int)
    requires
        graph::loading_wf(s.loading),
        0 <= i < s.loading.nodes.len(),
        s.loading.nodes[i].phase == Phase::Late,
        0 <= k < s.loading.nodes.len(),
    ensures
        ({
            let r = machine::on_late(s, i);
            &&& r.acts.contains(Act::StartLate { node: k }) <==> k != i && s.loading.nodes[k].phase
                == Phase::Ready && s.loading.depends[k].contains(i) && forall|j: int| #[trigger]
                s.loading.depends[k].contains(j) && j != i ==> s.loading.nodes[j].phase
                    == Phase::Finished
            &&& r.s.loading.nodes[i].phase == Phase::Finished
            &&& r.s.loading.nodes[k].phase == (if k == i {
                Phase::Finished
            } else if r.acts.contains(Act::StartLate { node: k }) {
                Phase::Late
            } else {
                s.loading.nodes[k].phase
            })
        }),
{
    let g = s.loading;
    let r = machine::on_late(s, i);
    let list = graph::started_by(g, i);
    let dependents = g.nodes[i].dependents;
    assert(graph::node_wf(g, i) && graph::node_wf(g, k));
    lemma_filter_contains(dependents, graph::starts_on_release(g), k);
    assert(r.acts.contains(Act::StartLate { node: k }) <==> list.contains(k)) by {
        if r.acts.contains(Act::StartLate { node: k }) {
            let n = choose|n: int| 0 <= n < r.acts.len() && r.acts[n] == (Act::StartLate { node: k });
            assert(list[n] == k);
        }
        if list.contains(k) {
            let n = choose|n: int| 0 <= n < list.len() && list[n] == k;
            assert(r.acts[n] == (Act::StartLate { node: k }));
        }
    }
    assert(dependents.contains(k) <==> g.depends[k].contains(i));
    if g.depends[k].contains(i) {
        lemma_one_left(g, i, k);
    }
}

/// A plugin has one left to wait for exactly if all others that it waits for are finished.
pub(crate) proof fn lemma_one_left(g: Loading, i: int, k: int)
    requires
        graph::node_wf(g, k),
        0 <= i < g.nodes.len(),
        g.nodes[i].phase != Phase::Finished,
        g.depends[k].contains(i),
    ensures
        g.nodes[k].pending == 1 <==> forall|j: int| #[trigger]
            g.depends[k].contains(j) && j != i ==> g.nodes[j].phase == Phase::Finished,
{
    let done = g.nodes.update(i, NodeState { phase: Phase::Finished, ..g.nodes[i] });
    graph::lemma_one_finished(g.nodes, done, g.depends[k], i);
    graph::lemma_none_unfinished(done, g.depends[k]);
    if g.nodes[k].pending == 1 {
        assert forall|j: int| #[trigger] g.depends[k].contains(j) && j != i implies g.nodes[j].phase
            == Phase::Finished by {
            assert(done[j].phase == Phase::Finished);
        }
    }
    if forall|j: int| #[trigger] g.depends[k].contains(j) && j != i ==> g.nodes[j].phase
        == Phase::Finished {
        assert forall|j: int| #[trigger] g.depends[k].contains(j) implies done[j].phase
            == Phase::Finished by {}
    }
}

pub(crate) proof fn lemma_filter_contains(list: Seq<int>, pick: spec_fn(int) -> bool, k: int)
    ensures
        list.filter(pick).contains(k) <==> list.contains(k) && pick(k),
    decreases list.len(),
{
    reveal(Seq::filter);
    if list.len() > 0 {
        let front = list.drop_last();
        lemma_filter_contains(front, pick, k);
        assert(list =~= front.push(list.last()));
        crate::order::lemma_contains_push(front, list.last(), k);
        crate::order::lemma_contains_push(front.filter(pick), list.last(), k);
    }
}

/// GitHub is asked for twenty-five repositories at a time: every chunk before the last has so many,
/// and fewer are asked for only when everything is.
pub proof fn law_chunk_size(batch: Seq<Github>, all: bool, i: int)
    ensures
        ({
            let list = scheduler::chunks(batch, all);
            &&& 0 <= i < list.len() ==> 0 < list[i].len() <= 25
            &&& 0 <= i < list.len() && list[i].len() < 25 ==> all && i == list.len() - 1
            &&& scheduler::left_over(batch, all).len() < 25
            &&& batch.len() >= 25 ==> list.len() > 0 && list[0] == batch.take(25)
        }),
    decreases batch.len(),
{
    if batch.len() >= 25 {
        let rest = batch.skip(25);
        let list = scheduler::chunks(batch, all);
        law_chunk_size(rest, all, i - 1);
        assert(list =~= seq![batch.take(25)] + scheduler::chunks(rest, all));
        if 0 < i < list.len() {
            assert(list[i] == scheduler::chunks(rest, all)[i - 1]);
        }
    }
}

} // verus!
