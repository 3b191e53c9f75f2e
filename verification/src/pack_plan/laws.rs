//! What holds of every plan.

use crate::lazy_registration;
use crate::lazy_registration::create;
use crate::lazy_registration::Registration;
use crate::lazy_type::{Event, Lazy};
use crate::loaded::Plugin;
use crate::order;
use crate::pack_plan;
use crate::pack_plan::{Package, Plan};
use vstd::prelude::*;

verus! {

/// Planning a plugin again changes nothing.
pub proof fn law_insert_twice(plan: Plan, p: Plugin)
    ensures
        pack_plan::inserted(pack_plan::inserted(plan, p), p) == pack_plan::inserted(plan, p),
{
    let id = pack_plan::id_text(p);
    let once = pack_plan::inserted(plan, p);
    if !plan.installing.contains(id) {
        order::lemma_contains_push(plan.installing, id, id);
    }
    assert(once.installing.contains(id));
}

/// The identities of packages with files.
pub open spec fn file_ids(plan: Plan) -> Seq<Seq<char>> {
    plan.files.map_values(|e: (Seq<char>, Package)| e.0)
}

/// No package is planned twice, and all that have files are planned.
pub open spec fn each_once(plan: Plan) -> bool {
    &&& plan.installing.no_duplicates()
    &&& file_ids(plan).no_duplicates()
    &&& forall|id: Seq<char>| #[trigger] file_ids(plan).contains(id) ==> plan.installing.contains(id)
}

proof fn lemma_insert_once(plan: Plan, p: Plugin)
    requires
        each_once(plan),
    ensures
        each_once(pack_plan::inserted(plan, p)),
{
    let id = pack_plan::id_text(p);
    let next = pack_plan::inserted(plan, p);
    if !plan.installing.contains(id) {
        assert forall|x: Seq<char>| #[trigger] next.installing.contains(x) <==> plan.installing.contains(x) || x == id by {
            order::lemma_contains_push(plan.installing, id, x);
        }
        assert(!file_ids(plan).contains(id));
        if pack_plan::package_of(p).entries.len() > 0 {
            assert(file_ids(next) =~= file_ids(plan).push(id));
            assert forall|x: Seq<char>| #[trigger] file_ids(next).contains(x) implies next.installing.contains(x) by {
                order::lemma_contains_push(file_ids(plan), id, x);
            }
        } else {
            assert forall|x: Seq<char>| #[trigger] file_ids(next).contains(x) implies next.installing.contains(x) by {
                assert(file_ids(plan).contains(x));
            }
        }
    }
}

/// However plugins are planned, no package is planned twice.
pub proof fn law_packages_planned_once(plan: Plan, list: Seq<Plugin>)
    requires
        each_once(plan),
    ensures
        each_once(pack_plan::inserted_all(plan, list)),
    decreases list.len(),
{
    if list.len() > 0 {
        law_packages_planned_once(plan, list.drop_last());
        lemma_insert_once(pack_plan::inserted_all(plan, list.drop_last()), list.last());
    }
}

/// A sort of trigger that names one thing.
pub enum Sort {
    Autocmd,
    UserCmd,
    FileType,
    VimFunc,
    LuaModule,
    OnSource,
}

/// The event of a trigger.
pub open spec fn event_of(sort: Sort) -> spec_fn(Seq<char>) -> Event {
    match sort {
        Sort::Autocmd => create::on_event(),
        Sort::UserCmd => create::on_cmd(),
        Sort::FileType => create::on_ft(),
        Sort::VimFunc => create::on_func(),
        Sort::LuaModule => create::on_luam(),
        Sort::OnSource => create::on_source(),
    }
}

/// The packages by trigger.
pub open spec fn table(r: Registration, sort: Sort) -> Map<Seq<char>, Seq<Seq<char>>> {
    match sort {
        Sort::Autocmd => r.events,
        Sort::UserCmd => r.cmds,
        Sort::FileType => r.fts,
        Sort::VimFunc => r.funcs,
        Sort::LuaModule => r.luams,
        Sort::OnSource => r.sources,
    }
}

/// The plugin is loaded by the trigger.
pub open spec fn loaded_by(p: Plugin, sort: Sort, key: Seq<char>) -> bool {
    !p.is_lazy_registration && match p.lazy {
        Lazy::Start => false,
        Lazy::Opt(events) => events.contains(event_of(sort)(key)),
    }
}

/// The packages that a trigger loads, in the order of the plugins, each at its first place.
pub open spec fn loaded_in_order(list: Seq<Plugin>, sort: Sort, key: Seq<char>) -> Seq<Seq<char>>
    decreases list.len(),
{
    if list.len() == 0 {
        Seq::empty()
    } else {
        let front = loaded_in_order(list.drop_last(), sort, key);
        let p = list.last();
        let id = pack_plan::id_text(p);
        if !pack_plan::inserted_all(pack_plan::no_plan(), list.drop_last()).installing.contains(id)
            && loaded_by(p, sort, key) {
            front.push(id)
        } else {
            front
        }
    }
}

proof fn lemma_distinct_kept(s: Seq<Seq<char>>)
    requires
        s.no_duplicates(),
    ensures
        lazy_registration::first_occurrences(s) == s,
    decreases s.len(),
{
    if s.len() > 0 {
        let front = s.drop_last();
        assert(front.no_duplicates());
        lemma_distinct_kept(front);
        assert(!front.contains(s.last()));
        assert(front.push(s.last()) =~= s);
    }
}

/// The packages of a trigger are registered in the order in which the plugins come: what comes
/// first is loaded first.  So a plugin's dependencies, which come before it, are loaded before it.
pub proof fn law_triggers_keep_order(list: Seq<Plugin>, sort: Sort, key: Seq<char>)
    ensures
        lazy_registration::ids_at(
            table(pack_plan::inserted_all(pack_plan::no_plan(), list).ctl, sort),
            key,
        ) == loaded_in_order(list, sort, key),
        loaded_in_order(list, sort, key).no_duplicates(),
        forall|id: Seq<char>| #[trigger]
            loaded_in_order(list, sort, key).contains(id) ==> pack_plan::inserted_all(
                pack_plan::no_plan(),
                list,
            ).installing.contains(id),
    decreases list.len(),
{
    let plan = pack_plan::inserted_all(pack_plan::no_plan(), list);
    let all = loaded_in_order(list, sort, key);
    if list.len() == 0 {
        assert(!table(plan.ctl, sort).contains_key(key));
    } else {
        law_triggers_keep_order(list.drop_last(), sort, key);
        let before = pack_plan::inserted_all(pack_plan::no_plan(), list.drop_last());
        let front = loaded_in_order(list.drop_last(), sort, key);
        let p = list.last();
        let id = pack_plan::id_text(p);
        let t = table(before.ctl, sort);
        if before.installing.contains(id) {
            assert(all == front);
        } else {
            assert forall|x: Seq<char>| #[trigger] plan.installing.contains(x) <==> before.installing.contains(x) || x == id by {
                order::lemma_contains_push(before.installing, id, x);
            }
            if !p.is_lazy_registration {
                let added = create::created(id, p.source_names, p.lazy, p.script, p.order);
                let u = table(added, sort);
                let joined = lazy_registration::appended(t, u);
                assert(table(plan.ctl, sort) == lazy_registration::deduplicated(joined));
                let ids = lazy_registration::ids_at(u, key);
                if loaded_by(p, sort, key) {
                    assert(ids == seq![id]);
                    assert(!front.contains(id));
                    assert(front + seq![id] =~= front.push(id));
                    assert(front.push(id).no_duplicates());
                    lemma_distinct_kept(front.push(id));
                    assert(joined.contains_key(key));
                    assert forall|x: Seq<char>| #[trigger] all.contains(x) implies plan.installing.contains(x) by {
                        order::lemma_contains_push(front, id, x);
                    }
                } else {
                    assert(!u.contains_key(key));
                    assert(front + Seq::<Seq<char>>::empty() =~= front);
                    lemma_distinct_kept(front);
                    if !t.contains_key(key) {
                        assert(!joined.contains_key(key));
                    }
                }
            }
        }
    }
}

} // verus!
