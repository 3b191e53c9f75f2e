//! The order in which plugins are read makes no difference.

use crate::lazy_registration;
use crate::scheduler;
use crate::scheduler::gather;
use crate::scheduler::graph::Loading;
use crate::scheduler::machine;
use crate::scheduler::machine::{Reply, Sched};
use crate::scheduler::{Act, Github, KeyOf, Plan, Request, Settings, StagedState};
use vstd::prelude::*;

verus! {

/// A plugin that is read: its name, and what it says of its repository.
pub struct Read {
    pub id: Seq<char>,
    pub request: Option<Request>,
}

/// The state and what is to be done when plugins were read, if none asks for a repository at
/// another revision than one before it.
pub open spec fn read_all(s: Sched, list: Seq<Read>) -> Option<Reply>
    decreases list.len(),
{
    if list.len() == 0 {
        Some(machine::quiet(s))
    } else {
        match read_all(s, list.drop_last()) {
            Some(r) => if machine::conflicts(r.s, list.last().request) {
                None
            } else {
                let next = machine::on_plugin(r.s, list.last().id, list.last().request);
                Some(Reply { s: next.s, acts: r.acts + next.acts })
            },
            None => None,
        }
    }
}

/// Two plugins do not ask for one repository at two revisions.
pub open spec fn agree(a: Option<Request>, b: Option<Request>) -> bool {
    a is Some && b is Some && a->0.canonical == b->0.canonical ==> a->0.rev == b->0.rev
}

/// Neither two of the plugins ask for one repository at two revisions, nor one of them and one
/// that was read before.
pub open spec fn consistent(s: Sched, list: Seq<Read>) -> bool {
    &&& forall|i: int| 0 <= i < list.len() ==> !machine::conflicts(s, (#[trigger] list[i]).request)
    &&& forall|i: int, j: int|
        0 <= i < list.len() && 0 <= j < list.len() ==> agree(
            (#[trigger] list[i]).request,
            (#[trigger] list[j]).request,
        )
}

/// A name is that of one plugin.
pub open spec fn one_read_per_id(list: Seq<Read>) -> bool {
    forall|i: int, j: int|
        0 <= i < list.len() && 0 <= j < list.len() && (#[trigger] list[i]).id == (
        #[trigger] list[j]).id ==> list[i] == list[j]
}

/// What is asked for of a repository.
pub open spec fn wanted(request: Option<Request>) -> Github {
    Github {
        owner: machine::owner_of(request),
        repo: machine::repo_of(request),
        rev: request->0.rev,
    }
}

/// How far a plugin is when it was read.
pub open spec fn first_state(settings: Settings, request: Option<Request>) -> StagedState {
    match scheduler::plan_for(settings, request) {
        Plan::Known(_) => StagedState::InFlight,
        _ => StagedState::Pending,
    }
}

/// What is begun for a plugin that was read, unless its revision is resolved with others.
pub open spec fn begun(settings: Settings) -> spec_fn(Read) -> Option<Act> {
    |read: Read|
        match scheduler::plan_for(settings, read.request) {
            Plan::Known(rev) => Some(Act::StartEarly { key: KeyOf::Staged(read.id), rev }),
            Plan::IfInstalled => Some(
                Act::CheckCatalog {
                    id: read.id,
                    canonical: read.request->0.canonical,
                    owner: machine::owner_of(read.request),
                    repo: machine::repo_of(read.request),
                    wanted: read.request->0.rev,
                },
            ),
            Plan::Resolve => None,
        }
}

/// What is resolved with others for a plugin that was read.
pub open spec fn to_resolve(settings: Settings) -> spec_fn(Read) -> Option<Github> {
    |read: Read|
        match scheduler::plan_for(settings, read.request) {
            Plan::Resolve => Some(wanted(read.request)),
            _ => None,
        }
}

/// The name of a plugin that was read and waits for the revision of a repository.
pub open spec fn waits_for(settings: Settings, canonical: Seq<char>) -> spec_fn(Read) -> Option<
    Seq<char>,
> {
    |read: Read|
        match scheduler::plan_for(settings, read.request) {
            Plan::Resolve => if read.request->0.canonical == canonical {
                Some(read.id)
            } else {
                None
            },
            _ => None,
        }
}

/// Everything but requests for revisions.
pub open spec fn not_asking() -> spec_fn(Act) -> Option<Act> {
    |act: Act|
        if act is Resolve {
            None
        } else {
            Some(act)
        }
}

/// All revisions that are asked for, in order.
pub open spec fn asked(acts: Seq<Act>) -> Seq<Github>
    decreases acts.len(),
{
    if acts.len() == 0 {
        Seq::empty()
    } else {
        asked(acts.drop_last()) + match acts.last() {
            Act::Resolve { chunk } => chunk,
            _ => Seq::empty(),
        }
    }
}

/// The plugin is among those that were read.
pub open spec fn is_read(list: Seq<Read>, id: Seq<char>) -> bool {
    exists|i: int| 0 <= i < list.len() && (#[trigger] list[i]).id == id
}

/// The repository is among those that were asked for.
pub open spec fn is_requested(list: Seq<Read>, canonical: Seq<char>) -> bool {
    exists|i: int|
        0 <= i < list.len() && (#[trigger] list[i]).request is Some
            && list[i].request->0.canonical == canonical
}

/// What the plugins that were read make of the state and what is to be done.
pub open spec fn has_read(s: Sched, list: Seq<Read>, r: Reply) -> bool {
    let queued = gather::gathered(list, to_resolve(s.settings));
    &&& r.s.settings == s.settings
    &&& r.s.loading == s.loading
    &&& r.s.node_of == s.node_of
    &&& r.s.resolved == s.resolved
    &&& r.s.progress_sent == s.progress_sent
    &&& r.s.total == s.total + queued.len()
    &&& asked(r.acts) + r.s.batch == s.batch + queued
    &&& gather::gathered(r.acts, not_asking()) == gather::gathered(list, begun(s.settings))
    &&& forall|c: Seq<char>| #[trigger]
        r.s.seen.contains_key(c) <==> s.seen.contains_key(c) || is_requested(list, c)
    &&& forall|c: Seq<char>|
        s.seen.contains_key(c) ==> #[trigger] r.s.seen[c] == s.seen[c]
    &&& forall|i: int|
        0 <= i < list.len() && (#[trigger] list[i]).request is Some
            ==> r.s.seen[list[i].request->0.canonical] == list[i].request->0.rev
    &&& forall|id: Seq<char>| #[trigger]
        r.s.staging.contains_key(id) <==> s.staging.contains_key(id) || is_read(list, id)
    &&& forall|id: Seq<char>|
        !is_read(list, id) ==> #[trigger] r.s.staging[id] == s.staging[id]
    &&& one_read_per_id(list) ==> forall|i: int|
        0 <= i < list.len() ==> r.s.staging[(#[trigger] list[i]).id] == first_state(
            s.settings,
            list[i].request,
        )
    &&& forall|c: Seq<char>| #[trigger]
        lazy_registration::ids_at(r.s.waiting, c) == lazy_registration::ids_at(s.waiting, c)
            + gather::gathered(list, waits_for(s.settings, c))
    &&& forall|c: Seq<char>| #[trigger]
        r.s.waiting.contains_key(c) <==> s.waiting.contains_key(c) || gather::gathered(
            list,
            waits_for(s.settings, c),
        ).len() > 0
}

proof fn lemma_asked_joined(a: Seq<Act>, b: Seq<Act>)
    ensures
        asked(a + b) == asked(a) + asked(b),
    decreases b.len(),
{
    if b.len() == 0 {
        assert(a + b =~= a);
        assert(asked(a) + Seq::<Github>::empty() =~= asked(a));
    } else {
        assert((a + b).drop_last() =~= a + b.drop_last());
        lemma_asked_joined(a, b.drop_last());
        assert(asked(a + b) =~= asked(a) + asked(b));
    }
}

pub(crate) proof fn lemma_asked_chunks(list: Seq<Seq<Github>>)
    ensures
        asked(scheduler::resolve_acts(list)) == scheduler::in_all(list),
        gather::gathered(scheduler::resolve_acts(list), not_asking()).len() == 0,
    decreases list.len(),
{
    let acts = scheduler::resolve_acts(list);
    if list.len() > 0 {
        let one = scheduler::resolve_acts(seq![list[0]]);
        let rest = scheduler::resolve_acts(list.skip(1));
        assert(acts =~= one + rest);
        lemma_asked_joined(one, rest);
        gather::lemma_gathered_joined(one, rest, not_asking());
        lemma_asked_chunks(list.skip(1));
        assert(one.last() == (Act::Resolve { chunk: list[0] }));
        assert(asked(one.drop_last()) =~= Seq::<Github>::empty());
        assert(asked(one) =~= list[0]);
        assert(gather::gathered(one.drop_last(), not_asking()) =~= Seq::<Act>::empty());
    }
}

proof fn lemma_one_act(act: Act)
    requires
        !(act is Resolve),
    ensures
        asked(seq![act]).len() == 0,
        gather::gathered(seq![act], not_asking()) == seq![act],
{
    let one = seq![act];
    assert(one.last() == act);
    assert(asked(one.drop_last()) =~= Seq::<Github>::empty());
    assert(gather::gathered(one.drop_last(), not_asking()) =~= Seq::<Act>::empty());
    assert(gather::gathered(one, not_asking()) =~= one);
}

/// What one plugin adds.
proof fn lemma_read_one(s: Sched, front: Seq<Read>, r: Reply, read: Read)
    requires
        has_read(s, front, r),
        !machine::conflicts(r.s, read.request),
    ensures
        ({
            let next = machine::on_plugin(r.s, read.id, read.request);
            has_read(s, front.push(read), Reply { s: next.s, acts: r.acts + next.acts })
        }),
{
    let list = front.push(read);
    let next = machine::on_plugin(r.s, read.id, read.request);
    let t = Reply { s: next.s, acts: r.acts + next.acts };
    let settings = s.settings;
    assert(list.drop_last() =~= front);
    assert(list.last() == read);
    lemma_asked_joined(r.acts, next.acts);
    gather::lemma_gathered_joined(r.acts, next.acts, not_asking());
    assert forall|c: Seq<char>| #[trigger] is_requested(list, c) <==> is_requested(front, c) || (
    read.request is Some && read.request->0.canonical == c) by {
        if is_requested(front, c) {
            let i = choose|i: int|
                0 <= i < front.len() && (#[trigger] front[i]).request is Some
                    && front[i].request->0.canonical == c;
            assert(list[i] == front[i]);
        }
        if read.request is Some && read.request->0.canonical == c {
            assert(list[front.len() as int] == read);
        }
        if is_requested(list, c) {
            let i = choose|i: int|
                0 <= i < list.len() && (#[trigger] list[i]).request is Some
                    && list[i].request->0.canonical == c;
            if i < front.len() {
                assert(front[i] == list[i]);
            }
        }
    }
    assert forall|id: Seq<char>| #[trigger] is_read(list, id) <==> is_read(front, id) || read.id == id by {
        if is_read(front, id) {
            let i = choose|i: int| 0 <= i < front.len() && (#[trigger] front[i]).id == id;
            assert(list[i] == front[i]);
        }
        if read.id == id {
            assert(list[front.len() as int] == read);
        }
        if is_read(list, id) {
            let i = choose|i: int| 0 <= i < list.len() && (#[trigger] list[i]).id == id;
            if i < front.len() {
                assert(front[i] == list[i]);
            }
        }
    }
    assert forall|i: int| 0 <= i < list.len() && (#[trigger] list[i]).request is Some implies t.s.seen[list[i].request->0.canonical]
        == list[i].request->0.rev by {
        if i < front.len() {
            assert(list[i] == front[i]);
            assert(is_requested(front, list[i].request->0.canonical));
        }
    }
    if one_read_per_id(list) {
        assert forall|i: int, j: int|
            0 <= i < front.len() && 0 <= j < front.len() && (#[trigger] front[i]).id == (
            #[trigger] front[j]).id implies front[i] == front[j] by {
            assert(list[i] == front[i] && list[j] == front[j]);
        }
        assert forall|i: int| 0 <= i < list.len() implies t.s.staging[(#[trigger] list[i]).id]
            == first_state(settings, list[i].request) by {
            assert(list[front.len() as int] == read);
            if i < front.len() {
                assert(list[i] == front[i]);
                if list[i].id == read.id {
                    assert(list[i] == list[front.len() as int]);
                }
            }
        }
    }
    let queued = gather::gathered(front, to_resolve(settings));
    match scheduler::plan_for(settings, read.request) {
        Plan::Known(rev) => {
            let act = Act::StartEarly { key: KeyOf::Staged(read.id), rev };
            lemma_one_act(act);
            assert(next.acts =~= seq![act]);
            assert(asked(t.acts) =~= asked(r.acts));
            assert(gather::gathered(t.acts, not_asking()) =~= gather::gathered(
                list,
                begun(settings),
            ));
        },
        Plan::IfInstalled => {
            let act = begun(settings)(read)->0;
            lemma_one_act(act);
            assert(next.acts =~= seq![act]);
            assert(asked(t.acts) =~= asked(r.acts));
            assert(gather::gathered(t.acts, not_asking()) =~= gather::gathered(
                list,
                begun(settings),
            ));
        },
        Plan::Resolve => {
            let g = wanted(read.request);
            let full = r.s.batch.push(g);
            scheduler::law_chunks(full, false);
            lemma_asked_chunks(scheduler::chunks(full, false));
            assert(asked(t.acts) + t.s.batch =~= asked(r.acts) + (scheduler::in_all(
                scheduler::chunks(full, false),
            ) + scheduler::left_over(full, false)));
            assert(asked(r.acts) + full =~= (asked(r.acts) + r.s.batch).push(g));
            assert(s.batch + queued.push(g) =~= (s.batch + queued).push(g));
            assert(gather::gathered(t.acts, not_asking()) =~= gather::gathered(
                list,
                begun(settings),
            ));
        },
    }
    assert forall|c: Seq<char>| #[trigger]
        lazy_registration::ids_at(t.s.waiting, c) == lazy_registration::ids_at(s.waiting, c)
            + gather::gathered(list, waits_for(settings, c)) by {
        assert(lazy_registration::ids_at(r.s.waiting, c) == lazy_registration::ids_at(s.waiting, c)
            + gather::gathered(front, waits_for(settings, c)));
        assert(lazy_registration::ids_at(t.s.waiting, c) =~= lazy_registration::ids_at(
            s.waiting,
            c,
        ) + gather::gathered(list, waits_for(settings, c)));
    }
    assert forall|c: Seq<char>| #[trigger]
        t.s.waiting.contains_key(c) <==> s.waiting.contains_key(c) || gather::gathered(
            list,
            waits_for(settings, c),
        ).len() > 0 by {
        assert(r.s.waiting.contains_key(c) <==> s.waiting.contains_key(c) || gather::gathered(
            front,
            waits_for(settings, c),
        ).len() > 0);
    }
}

/// Plugins are read without a conflict exactly if they are consistent, and then their order shows
/// in nothing but the order of what is gathered.
proof fn lemma_read_all(s: Sched, list: Seq<Read>)
    ensures
        read_all(s, list) is Some <==> consistent(s, list),
        read_all(s, list) is Some ==> has_read(s, list, read_all(s, list)->0),
    decreases list.len(),
{
    if list.len() == 0 {
        let r = machine::quiet(s);
        assert(asked(r.acts) + s.batch =~= s.batch + Seq::<Github>::empty());
        assert forall|c: Seq<char>| #[trigger]
            lazy_registration::ids_at(r.s.waiting, c) == lazy_registration::ids_at(s.waiting, c)
                + gather::gathered(list, waits_for(s.settings, c)) by {
            assert(lazy_registration::ids_at(s.waiting, c) + Seq::<Seq<char>>::empty()
                =~= lazy_registration::ids_at(s.waiting, c));
        }
    } else {
        let front = list.drop_last();
        let last = list.last();
        assert(list =~= front.push(last));
        assert(list[list.len() - 1] == last);
        lemma_read_all(s, front);
        if consistent(s, list) {
            assert forall|i: int| 0 <= i < front.len() implies !machine::conflicts(
                s,
                (#[trigger] front[i]).request,
            ) by {
                assert(front[i] == list[i]);
            }
            assert forall|i: int, j: int|
                0 <= i < front.len() && 0 <= j < front.len() implies agree(
                (#[trigger] front[i]).request,
                (#[trigger] front[j]).request,
            ) by {
                assert(front[i] == list[i] && front[j] == list[j]);
            }
        }
        if consistent(s, front) {
            let r = read_all(s, front)->0;
            if machine::conflicts(r.s, last.request) {
                let c = last.request->0.canonical;
                if s.seen.contains_key(c) {
                    assert(machine::conflicts(s, list[list.len() - 1].request));
                } else {
                    let i = choose|i: int|
                        0 <= i < front.len() && (#[trigger] front[i]).request is Some
                            && front[i].request->0.canonical == c;
                    assert(list[i] == front[i]);
                    assert(!agree(list[i].request, list[list.len() - 1].request));
                }
                assert(!consistent(s, list));
            } else {
                lemma_read_one(s, front, r, last);
                assert forall|i: int| 0 <= i < list.len() implies !machine::conflicts(
                    s,
                    (#[trigger] list[i]).request,
                ) by {
                    if i < front.len() {
                        assert(list[i] == front[i]);
                    } else if last.request is Some {
                        let c = last.request->0.canonical;
                        if s.seen.contains_key(c) {
                            assert(r.s.seen.contains_key(c));
                            assert(r.s.seen[c] == s.seen[c]);
                        }
                    }
                }
                assert forall|i: int, j: int|
                    0 <= i < list.len() && 0 <= j < list.len() implies agree(
                    (#[trigger] list[i]).request,
                    (#[trigger] list[j]).request,
                ) by {
                    if i < front.len() && j < front.len() {
                        assert(list[i] == front[i] && list[j] == front[j]);
                    } else if i < front.len() {
                        lemma_agrees(front, r, last, i);
                        assert(list[i] == front[i]);
                    } else if j < front.len() {
                        lemma_agrees(front, r, last, j);
                        assert(list[j] == front[j]);
                    }
                }
            }
        }
    }
}

proof fn lemma_agrees(front: Seq<Read>, r: Reply, last: Read, i: int)
    requires
        0 <= i < front.len(),
        !machine::conflicts(r.s, last.request),
        forall|c: Seq<char>| is_requested(front, c) ==> #[trigger] r.s.seen.contains_key(c),
        forall|i: int|
            0 <= i < front.len() && (#[trigger] front[i]).request is Some
                ==> r.s.seen[front[i].request->0.canonical] == front[i].request->0.rev,
    ensures
        agree(front[i].request, last.request),
        agree(last.request, front[i].request),
{
    if front[i].request is Some {
        let c = front[i].request->0.canonical;
        assert(is_requested(front, c));
        assert(r.s.seen.contains_key(c));
    }
}

/// The states differ at most in the order in which plugins wait for revisions, and in which of
/// the revisions are asked for already.
pub open spec fn same_but_order(a: Sched, b: Sched) -> bool {
    &&& a.settings == b.settings
    &&& a.seen == b.seen
    &&& a.staging == b.staging
    &&& a.loading == b.loading
    &&& a.node_of == b.node_of
    &&& a.total == b.total
    &&& a.resolved == b.resolved
    &&& a.progress_sent == b.progress_sent
    &&& a.waiting.dom() == b.waiting.dom()
    &&& forall|c: Seq<char>|
        (#[trigger] lazy_registration::ids_at(a.waiting, c)).to_multiset()
            == lazy_registration::ids_at(b.waiting, c).to_multiset()
}

/// What is to be done is the same but for its order: the same phases and checks are begun, and
/// the same revisions are asked for or are left to ask for.
pub open spec fn same_work(a: Reply, b: Reply) -> bool {
    &&& gather::gathered(a.acts, not_asking()).to_multiset() == gather::gathered(
        b.acts,
        not_asking(),
    ).to_multiset()
    &&& (asked(a.acts) + a.s.batch).to_multiset() == (asked(b.acts) + b.s.batch).to_multiset()
}

pub(crate) proof fn lemma_members(a: Seq<Read>, b: Seq<Read>)
    requires
        a.to_multiset() == b.to_multiset(),
    ensures
        forall|i: int| 0 <= i < a.len() ==> b.contains(#[trigger] a[i]),
        forall|id: Seq<char>| is_read(a, id) ==> #[trigger] is_read(b, id),
        forall|c: Seq<char>| is_requested(a, c) ==> #[trigger] is_requested(b, c),
{
    assert forall|i: int| 0 <= i < a.len() implies b.contains(#[trigger] a[i]) by {
        assert(a.contains(a[i]));
        vstd::seq_lib::to_multiset_contains(a, a[i]);
        vstd::seq_lib::to_multiset_contains(b, a[i]);
    }
    assert forall|id: Seq<char>| is_read(a, id) implies #[trigger] is_read(b, id) by {
        let i = choose|i: int| 0 <= i < a.len() && (#[trigger] a[i]).id == id;
        let j = choose|j: int| 0 <= j < b.len() && b[j] == a[i];
        assert(b[j].id == id);
    }
    assert forall|c: Seq<char>| is_requested(a, c) implies #[trigger] is_requested(b, c) by {
        let i = choose|i: int|
            0 <= i < a.len() && (#[trigger] a[i]).request is Some
                && a[i].request->0.canonical == c;
        let j = choose|j: int| 0 <= j < b.len() && b[j] == a[i];
        assert(b[j].request->0.canonical == c);
    }
}

proof fn lemma_multisets_joined<T>(a: Seq<T>, b: Seq<T>, c: Seq<T>)
    requires
        b.to_multiset() == c.to_multiset(),
    ensures
        (a + b).to_multiset() == (a + c).to_multiset(),
{
    vstd::seq_lib::lemma_multiset_commutative(a, b);
    vstd::seq_lib::lemma_multiset_commutative(a, c);
}

/// Plugins can be read exactly if no two of them ask for one repository at different revisions, by
/// a scheduler that has read nothing before.
pub proof fn law_conflicts_are_refused(s: Sched, list: Seq<Read>)
    requires
        s.seen == Map::<Seq<char>, Option<Seq<char>>>::empty(),
    ensures
        read_all(s, list) is Some <==> forall|i: int, j: int|
            0 <= i < j < list.len() && (#[trigger] list[i]).request is Some && (
            #[trigger] list[j]).request is Some && list[i].request->0.canonical
                == list[j].request->0.canonical ==> list[i].request->0.rev
                == list[j].request->0.rev,
{
    lemma_read_all(s, list);
    if forall|i: int, j: int|
        0 <= i < j < list.len() && (#[trigger] list[i]).request is Some && (
        #[trigger] list[j]).request is Some && list[i].request->0.canonical
            == list[j].request->0.canonical ==> list[i].request->0.rev == list[j].request->0.rev {
        assert(consistent(s, list));
    }
    if consistent(s, list) {
        assert forall|i: int, j: int|
            0 <= i < j < list.len() && (#[trigger] list[i]).request is Some && (
            #[trigger] list[j]).request is Some && list[i].request->0.canonical
                == list[j].request->0.canonical implies list[i].request->0.rev
            == list[j].request->0.rev by {
            assert(agree(list[i].request, list[j].request));
        }
    }
}

/// Reading the same plugins in another order succeeds if the first order does; and if a name is
/// that of one plugin, it leaves the scheduler in the same state but for the order in which plugins
/// wait, and gives the same to do but for its order.
pub proof fn law_read_in_any_order(s: Sched, a: Seq<Read>, b: Seq<Read>)
    requires
        a.to_multiset() == b.to_multiset(),
    ensures
        read_all(s, a) is Some <==> read_all(s, b) is Some,
        read_all(s, a) is Some && one_read_per_id(a) ==> same_but_order(
            (read_all(s, a)->0).s,
            (read_all(s, b)->0).s,
        ) && same_work(read_all(s, a)->0, read_all(s, b)->0),
{
    lemma_read_all(s, a);
    lemma_read_all(s, b);
    lemma_members(a, b);
    lemma_members(b, a);
    if consistent(s, a) {
        lemma_consistent(s, a, b);
    }
    if consistent(s, b) {
        lemma_consistent(s, b, a);
    }
    if read_all(s, a) is Some && one_read_per_id(a) {
        let x = read_all(s, a)->0;
        let y = read_all(s, b)->0;
        assert(one_read_per_id(b)) by {
            assert forall|i: int, j: int|
                0 <= i < b.len() && 0 <= j < b.len() && (#[trigger] b[i]).id == (
                #[trigger] b[j]).id implies b[i] == b[j] by {
                let k = choose|k: int| 0 <= k < a.len() && a[k] == b[i];
                let l = choose|l: int| 0 <= l < a.len() && a[l] == b[j];
                assert(a[k].id == a[l].id);
            }
        }
        assert forall|c: Seq<char>| x.s.seen.contains_key(c) implies #[trigger] x.s.seen[c]
            == y.s.seen[c] by {
            if !s.seen.contains_key(c) {
                let i = choose|i: int|
                    0 <= i < a.len() && (#[trigger] a[i]).request is Some
                        && a[i].request->0.canonical == c;
                let j = choose|j: int| 0 <= j < b.len() && b[j] == a[i];
                assert(b[j].request is Some);
            } else {
                assert(y.s.seen[c] == s.seen[c]);
            }
        }
        assert(x.s.seen =~= y.s.seen);
        assert forall|id: Seq<char>| x.s.staging.contains_key(id) implies #[trigger] x.s.staging[id]
            == y.s.staging[id] by {
            if is_read(a, id) {
                let i = choose|i: int| 0 <= i < a.len() && (#[trigger] a[i]).id == id;
                let j = choose|j: int| 0 <= j < b.len() && b[j] == a[i];
                assert(b[j].id == id);
            } else {
                assert(!is_read(b, id));
                assert(y.s.staging[id] == s.staging[id]);
            }
        }
        assert(x.s.staging =~= y.s.staging);
        gather::law_gathered_in_any_order(a, b, to_resolve(s.settings));
        gather::law_gathered_in_any_order(a, b, begun(s.settings));
        assert forall|c: Seq<char>|
            (#[trigger] lazy_registration::ids_at(x.s.waiting, c)).to_multiset()
                == lazy_registration::ids_at(y.s.waiting, c).to_multiset() by {
            gather::law_gathered_in_any_order(a, b, waits_for(s.settings, c));
            assert(lazy_registration::ids_at(y.s.waiting, c) == lazy_registration::ids_at(
                s.waiting,
                c,
            ) + gather::gathered(b, waits_for(s.settings, c)));
            lemma_multisets_joined(
                lazy_registration::ids_at(s.waiting, c),
                gather::gathered(a, waits_for(s.settings, c)),
                gather::gathered(b, waits_for(s.settings, c)),
            );
        }
        assert forall|c: Seq<char>| #[trigger]
            x.s.waiting.contains_key(c) <==> y.s.waiting.contains_key(c) by {
            gather::law_gathered_in_any_order(a, b, waits_for(s.settings, c));
        }
        assert(x.s.waiting.dom() =~= y.s.waiting.dom()) by {
            assert forall|c: Seq<char>| #[trigger]
                x.s.waiting.dom().contains(c) <==> y.s.waiting.dom().contains(c) by {
                assert(x.s.waiting.contains_key(c) <==> y.s.waiting.contains_key(c));
            }
        }
        lemma_multisets_joined(
            s.batch,
            gather::gathered(a, to_resolve(s.settings)),
            gather::gathered(b, to_resolve(s.settings)),
        );
    }
}

proof fn lemma_consistent(s: Sched, a: Seq<Read>, b: Seq<Read>)
    requires
        consistent(s, a),
        forall|i: int| 0 <= i < b.len() ==> a.contains(#[trigger] b[i]),
    ensures
        consistent(s, b),
{
    assert forall|i: int| 0 <= i < b.len() implies !machine::conflicts(
        s,
        (#[trigger] b[i]).request,
    ) by {
        let k = choose|k: int| 0 <= k < a.len() && a[k] == b[i];
        assert(!machine::conflicts(s, a[k].request));
    }
    assert forall|i: int, j: int| 0 <= i < b.len() && 0 <= j < b.len() implies agree(
        (#[trigger] b[i]).request,
        (#[trigger] b[j]).request,
    ) by {
        assert(a.contains(b[i]) && a.contains(b[j]));
        let k = choose|k: int| 0 <= k < a.len() && a[k] == b[i];
        let l = choose|l: int| 0 <= l < a.len() && a[l] == b[j];
        assert(agree(a[k].request, a[l].request));
    }
}

/// What plugins that take their places depend on is the same.
proof fn lemma_promoted_alike(a: Sched, b: Sched, ids: Seq<Seq<char>>, n: nat)
    requires
        a.staging == b.staging,
        a.loading == b.loading,
        a.node_of == b.node_of,
    ensures
        ({
            let x = machine::promoted(a, ids, n);
            let y = machine::promoted(b, ids, n);
            &&& x.acts == y.acts
            &&& x.s.loading == y.s.loading
            &&& x.s.staging == y.s.staging
            &&& x.s.node_of == y.s.node_of
            &&& x.s.total == a.total
            &&& x.s.progress_sent == a.progress_sent
            &&& x.s.resolved == a.resolved
            &&& x.s.batch == a.batch
            &&& y.s.total == b.total
            &&& y.s.progress_sent == b.progress_sent
            &&& y.s.resolved == b.resolved
            &&& y.s.batch == b.batch
        }),
    decreases n,
{
    if n > 0 {
        lemma_promoted_alike(a, b, ids, (n - 1) as nat);
    }
}

proof fn lemma_swept_alike(a: Sched, b: Sched, n: nat)
    requires
        a.loading == b.loading,
    ensures
        machine::swept(a, n).acts == machine::swept(b, n).acts,
        machine::swept(a, n).s.loading == machine::swept(b, n).s.loading,
        machine::swept(a, n).s.node_of == a.node_of,
        machine::swept(b, n).s.node_of == b.node_of,
        machine::swept(a, n).s.staging == a.staging,
        machine::swept(b, n).s.staging == b.staging,
    decreases n,
{
    if n > 0 {
        lemma_swept_alike(a, b, (n - 1) as nat);
    }
}

/// Once all configuration is read, the plugins are equally far in whatever order they were read,
/// and the same is done, in the same order, except that revisions may be asked for in other
/// chunks.
pub proof fn law_parsed_in_any_order(s: Sched, a: Seq<Read>, b: Seq<Read>, g: Loading, ids: Seq<Seq<char>>)
    requires
        a.to_multiset() == b.to_multiset(),
        one_read_per_id(a),
        read_all(s, a) is Some,
    ensures
        ({
            let x = machine::on_parsed((read_all(s, a)->0).s, g, ids);
            let y = machine::on_parsed((read_all(s, b)->0).s, g, ids);
            &&& x.s.loading == y.s.loading
            &&& x.s.node_of == y.s.node_of
            &&& x.s.staging == y.s.staging
            &&& gather::gathered(x.acts, not_asking()) == gather::gathered(y.acts, not_asking())
        }),
{
    law_read_in_any_order(s, a, b);
    let p = (read_all(s, a)->0).s;
    let q = (read_all(s, b)->0).s;
    let n = ids.len();
    lemma_promoted_alike(Sched { loading: g, ..p }, Sched { loading: g, ..q }, ids, n);
    let pa = machine::promoted(Sched { loading: g, ..p }, ids, n);
    let qa = machine::promoted(Sched { loading: g, ..q }, ids, n);
    let pb = Sched { batch: scheduler::left_over(pa.s.batch, true), ..pa.s };
    let qb = Sched { batch: scheduler::left_over(qa.s.batch, true), ..qa.s };
    let tell = pb.total > 0 && !pb.progress_sent;
    let pc = Sched { progress_sent: pb.progress_sent || tell, ..pb };
    let qc = Sched { progress_sent: qb.progress_sent || tell, ..qb };
    lemma_swept_alike(pc, qc, n);
    let f = not_asking();
    let told = if tell {
        machine::told(pb)
    } else {
        Seq::empty()
    };
    let last = machine::swept(pc, n).acts;
    let xr = scheduler::resolve_acts(scheduler::chunks(pa.s.batch, true));
    let yr = scheduler::resolve_acts(scheduler::chunks(qa.s.batch, true));
    lemma_asked_chunks(scheduler::chunks(pa.s.batch, true));
    lemma_asked_chunks(scheduler::chunks(qa.s.batch, true));
    gather::lemma_gathered_joined(pa.acts, xr, f);
    gather::lemma_gathered_joined(pa.acts, yr, f);
    gather::lemma_gathered_joined(pa.acts + xr, told, f);
    gather::lemma_gathered_joined(pa.acts + yr, told, f);
    gather::lemma_gathered_joined(pa.acts + xr + told, last, f);
    gather::lemma_gathered_joined(pa.acts + yr + told, last, f);
    assert(gather::gathered(xr, f) =~= gather::gathered(yr, f));
}

} // verus!
