//! What a plan holds of the plugins that were put into it.

use crate::files::Item;
use crate::lazy_registration;
use crate::lazy_registration::create;
use crate::lazy_registration::laws;
use crate::lazy_type::{Event, Lazy};
use crate::loaded;
use crate::loaded::Plugin;
use crate::order;
use crate::pack_plan;
use crate::pack_plan::Plan;
use crate::path::Part;
use vstd::prelude::*;

verus! {

/// A plugin that is planned for the first time is to be installed under its identity, with exactly
/// its files, each from its source, and with `.git` and as a registration if it says so.  One
/// without files is not.
pub proof fn law_files_are_planned(
    plan: Plan,
    p: Plugin,
    list: Seq<(Seq<Part>, Item)>,
    q: Seq<Part>,
)
    requires
        !plan.installing.contains(pack_plan::id_text(p)),
        loaded::is_listing(p.files, list),
    ensures
        ({
            let id = pack_plan::id_text(p);
            let after = pack_plan::inserted(plan, p);
            &&& after.installing == plan.installing.push(id)
            &&& list.len() == 0 ==> after.files == plan.files
            &&& list.len() > 0 ==> {
                let package = after.files.last().1;
                &&& after.files.len() == plan.files.len() + 1
                &&& after.files.drop_last() == plan.files
                &&& after.files.last().0 == id
                &&& package.dotgit == p.dotgit
                &&& package.is_lazy_registration == p.is_lazy_registration
                &&& p.files.contains_key(q) ==> package.entries.contains((q, p.files[q].source))
                &&& forall|k: int|
                    0 <= k < package.entries.len() ==> p.files.contains_key(
                        (#[trigger] package.entries[k]).0,
                    ) && package.entries[k].1 == p.files[package.entries[k].0].source
            }
            &&& after.docs == plan.docs
        }),
{
    let chosen = loaded::map_listing(p.files);
    loaded::lemma_listing_unique(p.files, list, chosen);
    let package = pack_plan::package_of(p);
    assert(package.entries.len() == list.len());
    assert forall|k: int| 0 <= k < package.entries.len() implies p.files.contains_key(
        (#[trigger] package.entries[k]).0,
    ) && package.entries[k].1 == p.files[package.entries[k].0].source by {
        assert(package.entries[k] == (list[k].0, list[k].1.source));
    }
    if p.files.contains_key(q) {
        let k = choose|k: int| 0 <= k < list.len() && (#[trigger] list[k]).0 == q;
        assert(package.entries[k] == (q, p.files[q].source));
    }
    if list.len() > 0 {
        assert(pack_plan::inserted(plan, p).files.drop_last() =~= plan.files);
    }
}

/// A plugin that is planned already changes nothing.
pub proof fn law_planned_stays(plan: Plan, p: Plugin)
    requires
        plan.installing.contains(pack_plan::id_text(p)),
    ensures
        pack_plan::inserted(plan, p) == plan,
{
}

/// A plugin that is planned is registered: its triggers load it, its scripts are noted with its
/// order, and its names are found; what was registered before is still.  A package that is itself a
/// registration is not.
pub proof fn law_planned_is_registered(
    plan: Plan,
    p: Plugin,
    k: Seq<char>,
    x: Seq<char>,
    mode: Option<char>,
)
    requires
        !plan.installing.contains(pack_plan::id_text(p)),
    ensures
        ({
            let id = pack_plan::id_text(p);
            let after = pack_plan::inserted(plan, p).ctl;
            let before = plan.ctl;
            &&& p.is_lazy_registration ==> after == before
            &&& !p.is_lazy_registration ==> {
                &&& after.scripts.len() == before.scripts.len() + 1
                &&& after.scripts.last().pkgid == id
                &&& after.scripts.last().script == p.script
                &&& after.scripts.last().order == p.order
                &&& after.scripts.last().start <==> p.lazy is Start
                &&& p.source_names.contains(k) ==> after.targets.contains_key(k)
                    && after.targets[k] == id
                &&& laws::loads(after.events, k, x) <==> laws::loads(before.events, k, x) || (x == id
                    && has(p.lazy, Event::Autocmd(k)))
                &&& laws::loads(after.cmds, k, x) <==> laws::loads(before.cmds, k, x) || (x == id
                    && has(p.lazy, Event::UserCmd(k)))
                &&& laws::loads(after.fts, k, x) <==> laws::loads(before.fts, k, x) || (x == id
                    && has(p.lazy, Event::FileType(k)))
                &&& laws::loads(after.funcs, k, x) <==> laws::loads(before.funcs, k, x) || (x == id
                    && has(p.lazy, Event::VimFunc(k)))
                &&& laws::loads(after.luams, k, x) <==> laws::loads(before.luams, k, x) || (x == id
                    && has(p.lazy, Event::LuaModule(k)))
                &&& laws::loads(after.sources, k, x) <==> laws::loads(before.sources, k, x) || (x
                    == id && has(p.lazy, Event::OnSource(k)))
                &&& laws::key_loads(after.keys, mode, k, x) <==> laws::key_loads(
                    before.keys,
                    mode,
                    k,
                    x,
                ) || (x == id && p.lazy is Opt && exists|i: int|
                    0 <= i < p.lazy->Opt_0.len() && laws::maps(
                        #[trigger] p.lazy->Opt_0[i],
                        mode,
                        k,
                    ))
            }
        }),
{
    if !p.is_lazy_registration {
        let id = pack_plan::id_text(p);
        let own = create::created(id, p.source_names, p.lazy, p.script, p.order);
        laws::law_both_load(plan.ctl, own, mode, k, x);
        laws::law_both_scripts(plan.ctl, own, k);
        laws::law_scripts_are_registered(id, p.source_names, p.lazy, p.script, p.order, k);
        match p.lazy {
            Lazy::Start => {
                laws::law_start_has_no_trigger(
                    id,
                    p.source_names,
                    p.script,
                    p.order,
                    mode,
                    k,
                    x,
                );
            },
            Lazy::Opt(events) => {
                laws::law_triggers_are_registered(
                    id,
                    p.source_names,
                    events,
                    p.script,
                    p.order,
                    k,
                    x,
                );
                laws::law_mappings_of_package(
                    id,
                    p.source_names,
                    events,
                    p.script,
                    p.order,
                    mode,
                    k,
                    x,
                );
            },
        }
        let r = lazy_registration::both(plan.ctl, own);
        assert(r.scripts.last() == own.scripts[0]);
    }
}

/// The lazy type has the event.
pub open spec fn has(lazy: Lazy, e: Event) -> bool {
    lazy is Opt && lazy->Opt_0.contains(e)
}

/// After all are planned, each of the plugins is to be installed, and nothing else that was not
/// before.
pub proof fn law_all_are_planned(plan: Plan, list: Seq<Plugin>, id: Seq<char>)
    ensures
        pack_plan::inserted_all(plan, list).installing.contains(id) <==> plan.installing.contains(id)
            || exists|i: int|
            0 <= i < list.len() && pack_plan::id_text(#[trigger] list[i]) == id,
    decreases list.len(),
{
    if list.len() > 0 {
        let front = list.drop_last();
        let last = list.last();
        let before = pack_plan::inserted_all(plan, front);
        law_all_are_planned(plan, front, id);
        order::lemma_contains_push(before.installing, pack_plan::id_text(last), id);
        assert(list[list.len() - 1] == last);
        if exists|i: int| 0 <= i < front.len() && pack_plan::id_text(#[trigger] front[i]) == id {
            let i = choose|i: int|
                0 <= i < front.len() && pack_plan::id_text(#[trigger] front[i]) == id;
            assert(list[i] == front[i]);
        }
        if exists|i: int| 0 <= i < list.len() && pack_plan::id_text(#[trigger] list[i]) == id {
            let i = choose|i: int|
                0 <= i < list.len() && pack_plan::id_text(#[trigger] list[i]) == id;
            if i < front.len() {
                assert(front[i] == list[i]);
            }
        }
    }
}

/// The path lies below `doc`.
pub open spec fn has_file_below_doc(p: Plugin) -> bool {
    exists|q: Seq<Part>| #[trigger]
        p.files.contains_key(q) && q.len() > 1 && q[0] == Part::Normal("doc"@)
}

/// Every plugin with a file below `doc` has a package of documentation with exactly these files, and
/// there is no other.
pub proof fn law_docs_are_split(list: Seq<Plugin>, d: Plugin)
    ensures
        pack_plan::docs(list).contains(d) <==> exists|i: int|
            0 <= i < list.len() && has_file_below_doc(#[trigger] list[i]) && d == loaded::doc_plugin(
                loaded::only_doc(list[i].files),
            ),
    decreases list.len(),
{
    if list.len() > 0 {
        let front = list.drop_last();
        let last = list.last();
        law_docs_are_split(front, d);
        lemma_has_doc(last);
        order::lemma_contains_push(
            pack_plan::docs(front),
            loaded::doc_plugin(loaded::only_doc(last.files)),
            d,
        );
        assert(list[list.len() - 1] == last);
        if exists|i: int|
            0 <= i < front.len() && has_file_below_doc(#[trigger] front[i]) && d
                == loaded::doc_plugin(loaded::only_doc(front[i].files)) {
            let i = choose|i: int|
                0 <= i < front.len() && has_file_below_doc(#[trigger] front[i]) && d
                    == loaded::doc_plugin(loaded::only_doc(front[i].files));
            assert(list[i] == front[i]);
        }
        if exists|i: int|
            0 <= i < list.len() && has_file_below_doc(#[trigger] list[i]) && d
                == loaded::doc_plugin(loaded::only_doc(list[i].files)) {
            let i = choose|i: int|
                0 <= i < list.len() && has_file_below_doc(#[trigger] list[i]) && d
                    == loaded::doc_plugin(loaded::only_doc(list[i].files));
            if i < front.len() {
                assert(front[i] == list[i]);
            }
        }
    }
}

proof fn lemma_has_doc(p: Plugin)
    ensures
        pack_plan::has_doc(p) <==> has_file_below_doc(p),
{
    if pack_plan::has_doc(p) {
        let q = choose|q: Seq<Part>| #[trigger] p.files.contains_key(q) && loaded::in_doc(q);
        loaded::laws::law_doc_is_split_off(p.files, q);
        assert(loaded::only_doc(p.files).contains_key(q));
    }
    if has_file_below_doc(p) {
        let q = choose|q: Seq<Part>| #[trigger]
            p.files.contains_key(q) && q.len() > 1 && q[0] == Part::Normal("doc"@);
        loaded::laws::law_doc_is_split_off(p.files, q);
        assert(loaded::only_doc(p.files).contains_key(q));
    }
}

/// What is left of a plugin is the plugin, but for its documentation.
pub proof fn law_rest(p: Plugin)
    ensures
        pack_plan::rest_of(p).files == loaded::without_doc(p.files),
        pack_plan::rest_of(p).lazy == p.lazy,
        pack_plan::rest_of(p).script == p.script,
        pack_plan::rest_of(p).order == p.order,
        pack_plan::rest_of(p).source_names == p.source_names,
        pack_plan::rest_of(p).merge_enabled == p.merge_enabled,
        pack_plan::rest_of(p).dotgit == p.dotgit,
        pack_plan::rest_of(p).is_lazy_registration == p.is_lazy_registration,
{
}

} // verus!
