//! What holds of the progress whatever messages come.

use crate::log::Message;
use crate::names;
use crate::order;
use crate::path::Part;
use crate::progress::manager;
use crate::progress::model;
use crate::progress::model::Ui;
use crate::progress::table;
use crate::progress::{
    At, Bar, Child, CACHE_FETCH_DONE_ID, CACHE_FETCH_PROGRESS_ID, CACHE_FETCH_STAGE_ID, LOADING,
};
use vstd::prelude::*;

verus! {

pub(crate) proof fn lemma_refreshed(ui: Ui)
    ensures
        (Ui { ops: ui.ops, ..model::refreshed(ui) }) == ui,
{
    let list = model::ordered(ui.children);
    manager::lemma_redrawn(ui, list, model::last_branch(list));
}

proof fn lemma_ended(ui: Ui, list: Seq<Seq<char>>, bars: Map<Seq<char>, Bar>)
    ensures
        (Ui { bars: ui.bars, ops: ui.ops, ..model::all_ended(ui, list, bars) }) == ui,
        list.contains(LOADING@) ==> model::all_ended(ui, list, bars).bars == ui.bars.insert(
            LOADING@,
            bars[LOADING@],
        ),
        !list.contains(LOADING@) ==> model::all_ended(ui, list, bars).bars == ui.bars,
    decreases list.len(),
{
    if list.len() > 0 {
        let front = list.drop_last();
        lemma_ended(ui, front, bars);
        assert(list =~= front.push(list.last()));
        assert(list.contains(LOADING@) <==> front.contains(LOADING@) || list.last() == LOADING@) by {
            order::lemma_contains_push(front, list.last(), LOADING@);
        }
        assert(ui.bars.insert(LOADING@, bars[LOADING@]).insert(LOADING@, bars[LOADING@])
            =~= ui.bars.insert(LOADING@, bars[LOADING@]));
    }
}

proof fn lemma_printed(ui: Ui, lines: Seq<Seq<char>>)
    ensures
        (Ui { ops: ui.ops, ..model::config_printed(ui, lines) }) == ui,
    decreases lines.len(),
{
    if lines.len() > 0 {
        lemma_printed(ui, lines.drop_last());
    }
}

/// What is shown of the plugins that are worked on is their number.
pub open spec fn running_ok(ui: Ui) -> bool {
    ui.running is Some ==> ui.running == Some(ui.running_count)
}

/// The branches differ.
pub open spec fn branches_ok(ui: Ui) -> bool {
    ui.children.no_duplicates()
}

proof fn lemma_filter_distinct(list: Seq<Child>, keep: spec_fn(Child) -> bool)
    requires
        list.no_duplicates(),
    ensures
        list.filter(keep).no_duplicates(),
        forall|c: Child| list.filter(keep).contains(c) ==> list.contains(c),
    decreases list.len(),
{
    reveal(Seq::filter);
    if list.len() > 0 {
        let front = list.drop_last();
        lemma_filter_distinct(front, keep);
        assert(list =~= front.push(list.last()));
        assert forall|c: Child| front.contains(c) implies list.contains(c) by {
            let i = front.index_of(c);
            assert(list[i] == c);
        }
        assert(list[list.len() - 1] == list.last());
        assert(!front.contains(list.last())) by {
            if front.contains(list.last()) {
                let i = front.index_of(list.last());
                assert(list[i] == list[list.len() - 1]);
            }
        }
        assert forall|c: Child| list.filter(keep).contains(c) implies list.contains(c) by {
            if keep(list.last()) {
                order::lemma_contains_push(front.filter(keep), list.last(), c);
            }
        }
    }
}

proof fn lemma_kept()
    ensures
        forall|u: Ui|
            (#[trigger] model::refreshed(u)).children == u.children && model::refreshed(u).running
                == u.running && model::refreshed(u).running_count == u.running_count,
        forall|u: Ui, list: Seq<Seq<char>>, bars: Map<Seq<char>, Bar>|
            (#[trigger] model::all_ended(u, list, bars)).children == u.children && model::all_ended(
                u,
                list,
                bars,
            ).running == u.running && model::all_ended(u, list, bars).running_count
                == u.running_count,
        forall|u: Ui, lines: Seq<Seq<char>>|
            (#[trigger] model::config_printed(u, lines)).children == u.children
                && model::config_printed(u, lines).running == u.running && model::config_printed(
                u,
                lines,
            ).running_count == u.running_count,
{
    assert forall|u: Ui|
        (#[trigger] model::refreshed(u)).children == u.children && model::refreshed(u).running
            == u.running && model::refreshed(u).running_count == u.running_count by {
        lemma_refreshed(u);
    }
    assert forall|u: Ui, list: Seq<Seq<char>>, bars: Map<Seq<char>, Bar>|
        (#[trigger] model::all_ended(u, list, bars)).children == u.children && model::all_ended(
            u,
            list,
            bars,
        ).running == u.running && model::all_ended(u, list, bars).running_count
            == u.running_count by {
        lemma_ended(u, list, bars);
    }
    assert forall|u: Ui, lines: Seq<Seq<char>>|
        (#[trigger] model::config_printed(u, lines)).children == u.children
            && model::config_printed(u, lines).running == u.running && model::config_printed(
            u,
            lines,
        ).running_count == u.running_count by {
        lemma_printed(u, lines);
    }
}

proof fn lemma_distinct()
    ensures
        forall|u: Ui, c: Child| branches_ok(u) ==> branches_ok(#[trigger] model::registered(u, c)),
        forall|u: Ui, c: Child| branches_ok(u) ==> branches_ok(#[trigger] model::unregistered(u, c)),
{
    lemma_kept();
    assert forall|u: Ui, c: Child| branches_ok(u) implies branches_ok(
        #[trigger] model::registered(u, c),
    ) by {
        if !u.children.contains(c) {
            let more = u.children.push(c);
            assert forall|i: int, j: int|
                0 <= i < more.len() && 0 <= j < more.len() && i != j implies more[i]
                != more[j] by {
                if i < u.children.len() {
                    assert(u.children.contains(u.children[i]));
                }
                if j < u.children.len() {
                    assert(u.children.contains(u.children[j]));
                }
            }
        }
    }
    assert forall|u: Ui, c: Child| branches_ok(u) implies branches_ok(
        #[trigger] model::unregistered(u, c),
    ) by {
        lemma_filter_distinct(u.children, model::other_child(c));
    }
}

/// What holds of the number and of the branches holds afterwards.
spec fn keeps(a: Ui, b: Ui) -> bool {
    &&& running_ok(a) ==> running_ok(b)
    &&& branches_ok(a) ==> branches_ok(b)
}

proof fn lemma_stage(ui: Ui, stage: Seq<char>, url: Seq<char>)
    ensures
        keeps(ui, model::on_stage(ui, stage, url)),
{
    lemma_kept();
    lemma_distinct();
}

proof fn lemma_fetched(ui: Ui, url: Seq<char>, next: Seq<char>)
    ensures
        keeps(ui, model::on_fetched(ui, url, next)),
{
    lemma_kept();
    lemma_distinct();
}

proof fn lemma_update(ui: Ui, url: Seq<char>)
    ensures
        keeps(ui, model::on_update(ui, url)),
{
    lemma_kept();
    lemma_distinct();
}

proof fn lemma_updated(ui: Ui, url: Seq<char>, next: Seq<char>)
    ensures
        keeps(ui, model::on_updated(ui, url, next)),
{
    lemma_kept();
    lemma_distinct();
}

proof fn lemma_objects(ui: Ui, id: Seq<char>, total: usize, received: usize)
    ensures
        keeps(ui, model::on_objects(ui, id, total, received)),
{
    lemma_kept();
    lemma_distinct();
}

proof fn lemma_build_line(ui: Ui, id: Seq<char>, stdtype: usize, line: Seq<char>)
    ensures
        keeps(ui, model::on_build_line(ui, id, stdtype, line)),
{
    lemma_kept();
    lemma_distinct();
}

proof fn lemma_build_end(ui: Ui, id: Seq<char>, success: bool)
    ensures
        keeps(ui, model::on_build_end(ui, id, success)),
{
    lemma_kept();
    lemma_distinct();
}

proof fn lemma_load_begin(ui: Ui, total: usize)
    ensures
        keeps(ui, model::on_load_begin(ui, total)),
{
    lemma_kept();
    lemma_distinct();
}

proof fn lemma_idle(ui: Ui, idle_gen: u64)
    ensures
        keeps(ui, model::on_idle(ui, idle_gen)),
{
    lemma_kept();
    lemma_distinct();
}

proof fn lemma_load_done(ui: Ui)
    ensures
        keeps(ui, model::on_load_done(ui)),
{
    lemma_kept();
    lemma_distinct();
}

proof fn lemma_config_end(ui: Ui)
    ensures
        keeps(ui, model::on_config_end(ui)),
{
    lemma_kept();
    lemma_distinct();
}

proof fn lemma_merged(ui: Ui, total: usize, merged: usize)
    ensures
        keeps(ui, model::on_merged(ui, total, merged)),
{
    lemma_kept();
    lemma_distinct();
}

proof fn lemma_resolved(ui: Ui, resolved: usize, total: usize)
    ensures
        keeps(ui, model::on_resolved(ui, resolved, total)),
{
    lemma_kept();
    lemma_distinct();
}

proof fn lemma_install_done(ui: Ui)
    ensures
        keeps(ui, model::on_install_done(ui)),
{
    lemma_kept();
    lemma_distinct();
}

proof fn lemma_others(ui: Ui, id: Seq<char>, prefix: Seq<char>, p: Seq<Part>)
    ensures
        keeps(ui, model::on_config_found(ui, p)),
        keeps(ui, model::on_skipped(ui, id)),
        keeps(ui, model::on_yank(ui, id, p)),
        keeps(ui, model::on_help(ui, p)),
        keeps(ui, model::on_plugin_done(ui)),
        keeps(ui, model::on_running(ui)),
        keeps(ui, model::on_running_done(ui)),
        keeps(
            ui,
            model::said(model::line_ready(ui, id, id), At::Named(id), model::plain(prefix)),
        ),
{
}

proof fn lemma_processed(ui: Ui, msg: Message, next: Seq<char>)
    ensures
        keeps(ui, model::processed(ui, msg, next)),
{
    match msg {
        Message::ConfigFound(p) => lemma_others(ui, next, next, p@),
        Message::ConfigWalkFinish => lemma_config_end(ui),
        Message::Cache(stage, url) => {
            lemma_stage(ui, stage@, url@);
            lemma_fetched(ui, url@, next);
            lemma_update(ui, url@);
            lemma_updated(ui, url@, next);
            lemma_others(ui, stage@, url@, Seq::empty());
        },
        Message::CacheFetchObjectsProgress { id, total_objs_count, received_objs_count } =>
            lemma_objects(ui, id@, total_objs_count, received_objs_count),
        Message::CacheBuildProgress { id, stdtype, line } => lemma_build_line(
            ui,
            id@,
            stdtype,
            line@,
        ),
        Message::CacheBuildFinished { id, success } => lemma_build_end(ui, id@, success),
        Message::LoadBegin { total } => lemma_load_begin(ui, total),
        Message::LoadPluginDone => lemma_others(ui, next, next, Seq::empty()),
        Message::LoadPluginRunning => lemma_others(ui, next, next, Seq::empty()),
        Message::LoadPluginRunningDone => lemma_others(ui, next, next, Seq::empty()),
        Message::LoadDone => lemma_load_done(ui),
        Message::FetchDoneIdle { idle_gen } => lemma_idle(ui, idle_gen),
        Message::MergeFinished { total, merged } => lemma_merged(ui, total, merged),
        Message::GraphQLResolveProgress { resolved, total } => lemma_resolved(ui, resolved, total),
        Message::InstallSkipped(id) => lemma_others(ui, id@, next, Seq::empty()),
        Message::InstallYank { id, which } => lemma_others(ui, id@, next, which@),
        Message::InstallHelp { help_dir } => lemma_others(ui, next, next, help_dir@),
        Message::InstallDone => lemma_install_done(ui),
        _ => {},
    }
}

/// The number that is shown of the plugins that are worked on is always theirs, also of those
/// whose work began before loading did.
pub proof fn law_running_shown(ui: Ui, msg: Message, next: Seq<char>)
    requires
        running_ok(ui),
    ensures
        running_ok(model::started()),
        running_ok(model::processed(ui, msg, next)),
{
    lemma_processed(ui, msg, next);
}

/// No branch is on the tree twice.
pub proof fn law_branches_differ(ui: Ui, msg: Message, next: Seq<char>)
    requires
        branches_ok(ui),
    ensures
        branches_ok(model::started()),
        branches_ok(model::processed(ui, msg, next)),
{
    lemma_processed(ui, msg, next);
}

/// A note that comes after another outlives the timer of the first.
pub proof fn law_old_timer_ignored(ui: Ui, url: Seq<char>, next: Seq<char>)
    ensures
        model::on_idle(model::on_fetched(ui, url, next), ui.idle_gen) == model::on_fetched(
            ui,
            url,
            next,
        ),
        !model::on_fetched(ui, url, next).done_blank,
{
    assert forall|u: Ui|
        (#[trigger] model::refreshed(u)).idle_gen == u.idle_gen && model::refreshed(u).done_blank
            == u.done_blank by {
        lemma_refreshed(u);
    }
}

/// The repository that is shown stays while others are fetched too.
pub proof fn law_first_stays(ui: Ui, stage: Seq<char>, url: Seq<char>, shown: Seq<char>)
    requires
        ui.fetching_current == Some(shown),
    ensures
        model::on_stage(ui, stage, url).fetching_current == Some(shown),
        model::on_stage(ui, stage, url).fetching_urls == ui.fetching_urls.insert(url),
        !model::on_stage(ui, stage, url).stage_blank,
{
    assert forall|u: Ui|
        (#[trigger] model::refreshed(u)).fetching_current == u.fetching_current && model::refreshed(
            u,
        ).fetching_urls == u.fetching_urls && model::refreshed(u).stage_blank == u.stage_blank by {
        lemma_refreshed(u);
    }
}

/// When the last repository is fetched, its bar stays and is blank.
pub proof fn law_blank_when_done(ui: Ui, url: Seq<char>, next: Seq<char>)
    requires
        ui.fetching_urls.remove(url) == names::no_members(),
    ensures
        model::on_fetched(ui, url, next).stage_blank,
        model::on_fetched(ui, url, next).bars.contains_key(CACHE_FETCH_STAGE_ID@)
            == ui.bars.contains_key(CACHE_FETCH_STAGE_ID@),
        model::on_fetched(ui, url, next).bars.contains_key(CACHE_FETCH_DONE_ID@),
{
    lemma_names_differ();
    assert forall|u: Ui|
        (#[trigger] model::refreshed(u)).fetching_urls == u.fetching_urls && model::refreshed(
            u,
        ).stage_blank == u.stage_blank && model::refreshed(u).bars == u.bars by {
        lemma_refreshed(u);
    }
}

proof fn lemma_names_differ()
    ensures
        LOADING@ != CACHE_FETCH_STAGE_ID@,
        LOADING@ != CACHE_FETCH_DONE_ID@,
        LOADING@ != CACHE_FETCH_PROGRESS_ID@,
        CACHE_FETCH_STAGE_ID@ != CACHE_FETCH_DONE_ID@,
{
    reveal_strlit("loading");
    reveal_strlit("cache_fetch_stage");
    reveal_strlit("cache_fetch_done");
    reveal_strlit("cache_fetch_progress");
    assert(LOADING@.len() == 7);
    assert(CACHE_FETCH_STAGE_ID@.len() == 17);
    assert(CACHE_FETCH_DONE_ID@.len() == 16);
    assert(CACHE_FETCH_PROGRESS_ID@.len() == 20);
}

/// The last of finitely many names.
proof fn lemma_last_name(set: Set<Seq<char>>) -> (last: Seq<char>)
    requires
        set.finite(),
        set.len() > 0,
    ensures
        set.contains(last),
        forall|x: Seq<char>| #[trigger] set.contains(x) && x != last ==> order::text_before(x, last),
    decreases set.len(),
{
    order::lemma_key_order::<String>();
    let any = set.choose();
    let rest = set.remove(any);
    if rest.len() == 0 {
        assert forall|x: Seq<char>| #[trigger] set.contains(x) && x != any implies order::text_before(
            x,
            any,
        ) by {
            assert(rest.contains(x));
            assert(rest =~= Set::empty());
        }
        any
    } else {
        let last = lemma_last_name(rest);
        assert(<String as order::Key>::before(any, last) || <String as order::Key>::before(last, any)
            || any == last);
        if order::text_before(any, last) {
            assert forall|x: Seq<char>| #[trigger] set.contains(x) && x != last implies
                order::text_before(x, last) by {
                if x != any {
                    assert(rest.contains(x));
                }
            }
            last
        } else {
            assert forall|x: Seq<char>| #[trigger] set.contains(x) && x != any implies
                order::text_before(x, any) by {
                assert(rest.contains(x));
                if x != last {
                    assert(<String as order::Key>::before(x, last));
                    assert(<String as order::Key>::before(last, any));
                    assert(<String as order::Key>::before(x, any));
                }
            }
            any
        }
    }
}

/// Finitely many names have an order.
proof fn lemma_listing(set: Set<Seq<char>>) -> (list: Seq<Seq<char>>)
    requires
        set.finite(),
    ensures
        order::ascending::<String>(list),
        forall|name: Seq<char>| #[trigger] list.contains(name) <==> set.contains(name),
    decreases set.len(),
{
    if set.len() == 0 {
        assert(set =~= Set::empty());
        Seq::empty()
    } else {
        let last = lemma_last_name(set);
        let rest = set.remove(last);
        let front = lemma_listing(rest);
        let list = front.push(last);
        assert forall|i: int, j: int| 0 <= i < j < list.len() implies <String as order::Key>::before(
            #[trigger] list[i],
            #[trigger] list[j],
        ) by {
            assert(front.contains(front[i]));
            assert(rest.contains(front[i]));
            if j < front.len() {
                assert(<String as order::Key>::before(front[i], front[j]));
            }
        }
        assert forall|name: Seq<char>| #[trigger] list.contains(name) <==> set.contains(name) by {
            order::lemma_contains_push(front, last, name);
            assert(front.contains(name) <==> rest.contains(name));
        }
        list
    }
}

/// When loading is over, the tree is empty, and of all bars that of the plugins to load is left,
/// as it was.
pub proof fn law_load_done(ui: Ui)
    requires
        ui.bars.dom().finite(),
    ensures
        model::on_load_done(ui).children == Seq::<Child>::empty(),
        model::on_load_done(ui).updating is None,
        !model::on_load_done(ui).title,
        model::on_load_done(ui).running is None,
        forall|name: Seq<char>| #[trigger]
            model::on_load_done(ui).bars.contains_key(name) <==> name == LOADING@
                && ui.bars.contains_key(LOADING@),
        ui.bars.contains_key(LOADING@) ==> model::on_load_done(ui).bars[LOADING@]
            == ui.bars[LOADING@],
{
    lemma_names_differ();
    assert forall|u: Ui|
        (#[trigger] model::refreshed(u)).bars == u.bars && model::refreshed(u).updating
            == u.updating && model::refreshed(u).title == u.title && model::refreshed(u).running
            == u.running by {
        lemma_refreshed(u);
    }
    let quiet = Ui {
        running: None,
        running_count: 0,
        ..model::untitled(model::stage_cleared(ui))
    };
    let cleared = model::objects_cleared(quiet);
    let bars = cleared.bars;
    assert(bars.dom().subset_of(ui.bars.dom()));
    vstd::set_lib::lemma_len_subset(bars.dom(), ui.bars.dom());
    let list = lemma_listing(bars.dom());
    assert(table::is_names_of(list, bars));
    let names = table::names_of(bars);
    assert(table::is_names_of(names, bars));
    let empty = model::updating_cleared(Ui { bars: Map::empty(), ..cleared });
    assert(empty.bars == Map::<Seq<char>, Bar>::empty());
    lemma_ended(empty, names, bars);
    assert(names.contains(LOADING@) <==> bars.contains_key(LOADING@));
    assert(bars.contains_key(LOADING@) <==> ui.bars.contains_key(LOADING@));
}

/// When plugins are merged, the bar of the plugins to load is gone.
pub proof fn law_merged(ui: Ui, total: usize, merged: usize)
    ensures
        !model::on_merged(ui, total, merged).bars.contains_key(LOADING@),
{
}

} // verus!
