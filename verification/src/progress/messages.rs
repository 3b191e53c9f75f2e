//! What the messages do to what is shown.

use crate::log::Message;
use crate::progress::laws;
use crate::progress::model;
use crate::progress::model::Ui;
use crate::progress::{
    At, Bar, Child, Look, Op, Shape, Spot, Tone, CACHE_FETCH_PROGRESS_ID, GRAPHQL_PROGRESS_ID,
    LOADING,
};
use crate::text;
use vstd::prelude::*;

verus! {

/// A plugin that is told of is noted on its own list, and on no other.
pub proof fn law_plugins_are_noted(ui: Ui, id: String, next: Seq<char>)
    ensures
        ({
            let missing = model::processed(ui, Message::PluginNotInstalled(id), next);
            let updated = model::processed(ui, Message::PluginUpdated(id), next);
            let installed = model::processed(ui, Message::PluginInstalled(id), next);
            let bare = model::processed(ui, Message::PluginDotgitMissing(id), next);
            &&& missing.not_installed == ui.not_installed.push(id@)
            &&& missing.updated == ui.updated && missing.installed == ui.installed
                && missing.dotgit_missing == ui.dotgit_missing
            &&& updated.updated == ui.updated.push(id@)
            &&& updated.not_installed == ui.not_installed && updated.installed == ui.installed
                && updated.dotgit_missing == ui.dotgit_missing
            &&& installed.installed == ui.installed.push(id@)
            &&& installed.not_installed == ui.not_installed && installed.updated == ui.updated
                && installed.dotgit_missing == ui.dotgit_missing
            &&& bare.dotgit_missing == ui.dotgit_missing.push(id@)
            &&& bare.not_installed == ui.not_installed && bare.updated == ui.updated
                && bare.installed == ui.installed
        }),
{
}

/// What begins and ends leaves the number of plugins that are worked on as it was.
pub proof fn law_running_is_counted(ui: Ui, next: Seq<char>)
    requires
        ui.running_count < usize::MAX,
    ensures
        ({
            let begun = model::processed(ui, Message::LoadPluginRunning, next);
            let over = model::processed(begun, Message::LoadPluginRunningDone, next);
            &&& begun.running_count == ui.running_count + 1
            &&& over.running_count == ui.running_count
            &&& ui.running is Some ==> begun.running == Some(begun.running_count) && begun.ops
                == ui.ops.push(Op::Running(begun.running_count))
            &&& ui.running is None ==> begun.ops == ui.ops
        }),
{
}

/// A loaded plugin moves the bar by one, and changes nothing else.
pub proof fn law_loaded_is_counted(ui: Ui, next: Seq<char>)
    requires
        ui.bars.contains_key(LOADING@),
        ui.bars[LOADING@].position < u64::MAX,
    ensures
        ({
            let after = model::processed(ui, Message::LoadPluginDone, next);
            &&& after.bars[LOADING@].position == ui.bars[LOADING@].position + 1
            &&& after.bars[LOADING@].length == ui.bars[LOADING@].length
            &&& after.ops == ui.ops.push(Op::Inc(At::Named(LOADING@), 1))
        }),
{
}

/// Every package that is left alone and every file that is copied counts one.
pub proof fn law_installed_is_counted(ui: Ui, id: String, which: crate::path::Path, next: Seq<char>)
    requires
        ui.skipped < usize::MAX,
        ui.yanked < usize::MAX,
    ensures
        ({
            let skipped = model::processed(ui, Message::InstallSkipped(id), next);
            let yanked = model::processed(ui, Message::InstallYank { id, which }, next);
            &&& skipped.skipped == ui.skipped + 1 && skipped.yanked == ui.yanked
            &&& yanked.yanked == ui.yanked + 1 && yanked.skipped == ui.skipped
        }),
{
}

/// Lines are printed for plugins that are not installed, that were updated and that were installed,
/// each only if there are any, in this order, and then how many were loaded.
pub proof fn law_summary_after_merging(ui: Ui, total: usize, merged: usize, next: Seq<char>)
    requires
        !ui.bars.contains_key(LOADING@),
    ensures
        ({
            let ops = model::processed(ui, Message::MergeFinished { total, merged }, next).ops;
            let a = ui.ops.len() as int;
            let b = if ui.not_installed.len() > 0 {
                a + 1
            } else {
                a
            };
            let c = if ui.updated.len() > 0 {
                b + 1
            } else {
                b
            };
            let d = if ui.installed.len() > 0 {
                c + 1
            } else {
                c
            };
            &&& ops.len() == d + 1
            &&& ops.take(a) == ui.ops
            &&& ui.not_installed.len() > 0 ==> ops[a] == Op::Print(
                model::warning(
                    ui.not_installed,
                    " plugins not installed (run with -i to install)"@,
                ),
            )
            &&& ui.updated.len() > 0 ==> ops[b] == Op::Print(
                model::plugin_block("Updated"@, ui.updated),
            )
            &&& ui.installed.len() > 0 ==> ops[c] == Op::Print(
                model::plugin_block("Installed"@, ui.installed),
            )
            &&& ops[d] == Op::Print(model::loaded_line(total, merged))
        }),
{
    let ops = model::processed(ui, Message::MergeFinished { total, merged }, next).ops;
    assert(ops.take(ui.ops.len() as int) =~= ui.ops);
}

/// The number of packages is told only where plugins were merged.
pub proof fn law_merged_is_told(total: usize, merged: usize)
    ensures
        model::loaded_line(total, merged).contains((Tone::Green, text::decimal_text(total as nat))),
        total != merged ==> model::loaded_line(total, merged).last() == (
            Tone::Green,
            "📦 "@ + text::decimal_text(merged as nat),
        ),
        total == merged ==> model::loaded_line(total, merged).last() == (Tone::Plain, " plugins"@),
{
    let line = model::loaded_line(total, merged);
    assert(line[4] == (Tone::Green, text::decimal_text(total as nat)));
}

/// Resolved revisions are shown as long as some are left, and their bar goes with the last; without
/// any nothing is shown.
pub proof fn law_resolved_is_shown(ui: Ui, resolved: usize, total: usize, next: Seq<char>)
    ensures
        ({
            let after = model::processed(
                ui,
                Message::GraphQLResolveProgress { resolved, total },
                next,
            );
            &&& total == 0 ==> after == ui
            &&& total > 0 && resolved < total ==> after.bars.contains_key(GRAPHQL_PROGRESS_ID@)
                && after.bars[GRAPHQL_PROGRESS_ID@].position == resolved
                && after.bars[GRAPHQL_PROGRESS_ID@].length == Some(total as u64)
            &&& total > 0 && resolved >= total ==> !after.bars.contains_key(GRAPHQL_PROGRESS_ID@)
        }),
{
    assert forall|u: Ui| #[trigger] model::refreshed(u).bars == u.bars by {
        laws::lemma_refreshed(u);
    }
}

/// The bar of the objects moves by what is new of a repository, and remembers it.
pub proof fn law_objects_add_up(
    ui: Ui,
    id: Seq<char>,
    total: usize,
    received: usize,
    before: (usize, usize),
)
    requires
        ui.bars.contains_key(CACHE_FETCH_PROGRESS_ID@),
        ui.objects.contains_key(id),
        ui.objects[id] == before,
        before.0 <= total,
        before.1 <= received,
        ui.bars[CACHE_FETCH_PROGRESS_ID@].length is Some,
        ui.bars[CACHE_FETCH_PROGRESS_ID@].length->0 + (total - before.0) <= u64::MAX,
        ui.bars[CACHE_FETCH_PROGRESS_ID@].position + (received - before.1) <= u64::MAX,
    ensures
        ({
            let after = model::on_objects(ui, id, total, received);
            let bar = ui.bars[CACHE_FETCH_PROGRESS_ID@];
            let moved = after.bars[CACHE_FETCH_PROGRESS_ID@];
            &&& moved.length == Some((bar.length->0 + (total - before.0)) as u64)
            &&& moved.position == bar.position + (received - before.1)
            &&& after.objects == ui.objects.insert(id, (total, received))
            &&& after.title
        }),
{
}

/// How far a bar is in percent is less than a hundred, and rounded down; a bar at its end has none.
pub proof fn law_percent(bar: Bar, length: u64)
    requires
        bar.length == Some(length),
        length > 0,
    ensures
        model::percent(bar) is Some <==> bar.position < length,
        model::percent(bar) matches Some(n) ==> n < 100 && n * length <= bar.position * 100 < (n + 1)
            * length,
{
    if bar.position < length {
        let x = (bar.position * 100) as int;
        let w = length as int;
        vstd::arithmetic::div_mod::lemma_fundamental_div_mod(x, w);
        vstd::arithmetic::div_mod::lemma_mod_bound(x, w);
        let q = x / w;
        assert(w * q == q * w) by (nonlinear_arith);
        assert((q + 1) * w == q * w + w) by (nonlinear_arith);
        assert(0 <= q < 100) by (nonlinear_arith)
            requires
                x < 100 * w,
                0 <= x,
                w > 0,
                q * w <= x,
                x < (q + 1) * w,
        ;
    }
}

/// The first repository whose revision is looked up is shown; further ones are noted, and it stays.
pub proof fn law_updating(ui: Ui, url: Seq<char>)
    ensures
        ({
            let after = model::on_update(ui, url);
            &&& after.updating is Some
            &&& after.updating_urls == ui.updating_urls.insert(url)
            &&& ui.updating_current is None ==> after.updating_current == Some(url)
            &&& ui.updating_current is Some ==> after.updating_current == ui.updating_current
        }),
{
    assert forall|u: Ui|
        (#[trigger] model::refreshed(u)).updating == u.updating && model::refreshed(u).updating_urls
            == u.updating_urls && model::refreshed(u).updating_current == u.updating_current by {
        laws::lemma_refreshed(u);
    }
}

/// A repository whose revision is known is looked up no more; the one that is shown then is another
/// one that is, as long as there is one.
pub proof fn law_updated(ui: Ui, url: Seq<char>, next: Seq<char>)
    ensures
        ({
            let after = model::on_updated(ui, url, next);
            let left = ui.updating_urls.remove(url);
            &&& after.updating_urls == left
            &&& left == Set::<Seq<char>>::empty() ==> after.updating_current is None
            &&& left != Set::<Seq<char>>::empty() && (ui.updating_current == Some(url)
                || ui.updating_current is None) ==> after.updating_current == Some(next)
            &&& left != Set::<Seq<char>>::empty() && ui.updating_current is Some
                && ui.updating_current != Some(url) ==> after.updating_current
                == ui.updating_current
        }),
{
    assert forall|u: Ui|
        (#[trigger] model::refreshed(u)).updating == u.updating && model::refreshed(u).updating_urls
            == u.updating_urls && model::refreshed(u).updating_current == u.updating_current by {
        laws::lemma_refreshed(u);
    }
}

/// A repository that is fetched is fetched no more; the one that is shown then is another one that
/// is, as long as there is one; and the note shows the one that was fetched.
pub proof fn law_fetched(ui: Ui, url: Seq<char>, next: Seq<char>)
    ensures
        ({
            let after = model::on_fetched(ui, url, next);
            let left = ui.fetching_urls.remove(url);
            &&& after.fetching_urls == left
            &&& after.done_url == Some(url)
            &&& left == Set::<Seq<char>>::empty() ==> after.fetching_current is None
            &&& left != Set::<Seq<char>>::empty() && ui.fetching_current == Some(url)
                ==> after.fetching_current == Some(next)
            &&& left != Set::<Seq<char>>::empty() && ui.fetching_current != Some(url)
                ==> after.fetching_current == ui.fetching_current
        }),
{
    assert forall|u: Ui|
        (#[trigger] model::refreshed(u)).fetching_urls == u.fetching_urls && model::refreshed(
            u,
        ).fetching_current == u.fetching_current && model::refreshed(u).done_url == u.done_url by {
        laws::lemma_refreshed(u);
    }
}

/// Each stage of an acquisition goes where it belongs: fetches to the fetches, lookups to the lookups,
/// and any other to a line of its own.
pub proof fn law_stages(ui: Ui, stage: String, url: String, next: Seq<char>)
    ensures
        ({
            let after = model::processed(ui, Message::Cache(stage, url), next);
            &&& stage@ == "Fetching"@ || stage@ == "Initializing"@ ==> after.fetching_urls
                == ui.fetching_urls.insert(url@)
            &&& stage@ == "Fetching:done"@ ==> after.fetching_urls == ui.fetching_urls.remove(url@)
            &&& stage@ == "Updating"@ ==> after.updating_urls == ui.updating_urls.insert(url@)
            &&& stage@ == "Updating:done"@ ==> after.updating_urls == ui.updating_urls.remove(url@)
            &&& stage@ != "Fetching"@ && stage@ != "Initializing"@ && stage@ != "Fetching:done"@
                && stage@ != "Updating"@ && stage@ != "Updating:done"@ ==> after.bars.contains_key(
                stage@,
            ) && after.bars[stage@].last == Some(seq![(Tone::Plain, url@)]) && after.fetching_urls
                == ui.fetching_urls && after.updating_urls == ui.updating_urls
        }),
{
    reveal_strlit("Fetching");
    reveal_strlit("Initializing");
    reveal_strlit("Fetching:done");
    reveal_strlit("Updating");
    reveal_strlit("Updating:done");
    assert("Fetching"@.len() == 8);
    assert("Updating"@.len() == 8);
    assert("Fetching"@[0] != "Updating"@[0]);
    assert("Fetching:done"@.len() == 13);
    assert("Updating:done"@.len() == 13);
    assert("Fetching:done"@[0] != "Updating:done"@[0]);
    assert("Initializing"@.len() == 12);
    assert forall|u: Ui|
        (#[trigger] model::refreshed(u)).fetching_urls == u.fetching_urls && model::refreshed(
            u,
        ).updating_urls == u.updating_urls by {
        laws::lemma_refreshed(u);
    }
    law_fetched(ui, url@, next);
    law_updated(ui, url@, next);
    law_updating(ui, url@);
}

/// Where a branch hangs: what is resolved above what is looked up, that above what is fetched, its
/// note below it, then the objects, and builds last.
pub open spec fn hangs_above(a: Child, b: Child) -> bool {
    match a {
        Child::GraphQLResolve => !(b is GraphQLResolve),
        Child::Updating => b is FetchStage || b is FetchDone || b is FetchProgress || b is Building,
        Child::FetchStage => b is FetchDone || b is FetchProgress || b is Building,
        Child::FetchDone => b is FetchProgress || b is Building,
        Child::FetchProgress => b is Building,
        Child::Building(_) => false,
    }
}

proof fn lemma_filtered(list: Seq<Child>, rank: int, c: Child)
    ensures
        list.filter(model::has_rank(rank)).contains(c) <==> list.contains(c)
            && model::category_rank(c) == rank,
    decreases list.len(),
{
    reveal(Seq::filter);
    if list.len() > 0 {
        let front = list.drop_last();
        lemma_filtered(front, rank, c);
        assert(list =~= front.push(list.last()));
        crate::order::lemma_contains_push(front, list.last(), c);
        crate::order::lemma_contains_push(
            front.filter(model::has_rank(rank)),
            list.last(),
            c,
        );
    }
}

proof fn lemma_ordered(list: Seq<Child>, rank: nat)
    ensures
        forall|c: Child| #[trigger]
            model::ordered_below(list, rank).contains(c) <==> list.contains(c)
                && model::category_rank(c) < rank,
        forall|i: int, j: int|
            0 <= i < j < model::ordered_below(list, rank).len() ==> model::category_rank(
                #[trigger] model::ordered_below(list, rank)[i],
            ) <= model::category_rank(#[trigger] model::ordered_below(list, rank)[j]),
    decreases rank,
{
    if rank > 0 {
        let less = (rank - 1) as nat;
        let front = model::ordered_below(list, less);
        let more = list.filter(model::has_rank(rank - 1));
        let all = front + more;
        lemma_ordered(list, less);
        assert forall|c: Child| #[trigger] all.contains(c) <==> list.contains(c)
            && model::category_rank(c) < rank by {
            lemma_filtered(list, rank - 1, c);
            if all.contains(c) {
                let i = all.index_of(c);
                if i < front.len() {
                    assert(front[i] == c);
                    assert(front.contains(c));
                } else {
                    assert(more[i - front.len()] == c);
                    assert(more.contains(c));
                }
            }
            if front.contains(c) {
                let i = front.index_of(c);
                assert(all[i] == c);
            }
            if more.contains(c) {
                let i = more.index_of(c);
                assert(all[front.len() + i] == c);
            }
        }
        assert forall|i: int, j: int| 0 <= i < j < all.len() implies model::category_rank(
            #[trigger] all[i],
        ) <= model::category_rank(#[trigger] all[j]) by {
            if j < front.len() {
                assert(all[i] == front[i] && all[j] == front[j]);
            } else {
                lemma_filtered(list, rank - 1, all[j]);
                assert(more[j - front.len()] == all[j]);
                assert(more.contains(all[j]));
                if i < front.len() {
                    assert(all[i] == front[i]);
                    assert(front.contains(front[i]));
                } else {
                    assert(more[i - front.len()] == all[i]);
                    assert(more.contains(all[i]));
                    lemma_filtered(list, rank - 1, all[i]);
                }
            }
        }
    }
}

/// The tree shows exactly the branches that there are, none above one that it hangs below.
pub proof fn law_tree_order(list: Seq<Child>, c: Child, i: int, j: int)
    ensures
        model::ordered(list).contains(c) <==> list.contains(c),
        0 <= i < j < model::ordered(list).len() ==> !hangs_above(
            model::ordered(list)[j],
            model::ordered(list)[i],
        ),
{
    lemma_ordered(list, 6);
}

/// The last branch is the lowest one that is not the note on what was fetched.
pub proof fn law_last_branch(list: Seq<Child>, i: int)
    ensures
        0 <= i < list.len() && !(list[i] is FetchDone) && (forall|j: int|
            i < j < list.len() ==> (#[trigger] list[j]) is FetchDone) ==> model::last_branch(list)
            == Some(list[i]),
        (forall|j: int| 0 <= j < list.len() ==> (#[trigger] list[j]) is FetchDone)
            ==> model::last_branch(list) is None,
    decreases list.len(),
{
    if list.len() > 0 {
        let front = list.drop_last();
        law_last_branch(front, i);
        if list.last() is FetchDone {
            if forall|j: int| 0 <= j < list.len() ==> (#[trigger] list[j]) is FetchDone {
                assert forall|j: int| 0 <= j < front.len() implies (#[trigger] front[j]) is FetchDone by {
                    assert(list[j] == front[j]);
                }
            }
            if 0 <= i < front.len() && !(list[i] is FetchDone) && (forall|j: int|
                i < j < list.len() ==> (#[trigger] list[j]) is FetchDone) {
                assert(front[i] == list[i]);
                assert forall|j: int| i < j < front.len() implies (#[trigger] front[j]) is FetchDone by {
                    assert(list[j] == front[j]);
                }
            }
        } else {
            assert(list[list.len() - 1] == list.last());
        }
    }
}

/// The configuration files are noted as they are found, and forgotten when all are.
pub proof fn law_configuration_files(ui: Ui, p: crate::path::Path, next: Seq<char>)
    ensures
        model::processed(ui, Message::ConfigFound(p), next).config_files == ui.config_files.push(p@),
{
}

/// A build that is over is off the tree, and its line says how it ended; one that was not shown says
/// nothing.
pub proof fn law_build_over(ui: Ui, id: Seq<char>, success: bool)
    ensures
        ({
            let after = model::on_build_end(ui, id, success);
            &&& !after.bars.contains_key(id)
            &&& !after.children.contains(Child::Building(id))
            &&& ui.bars.contains_key(id) && success ==> after.ops.len() >= ui.ops.len() + 3
                && after.ops[(ui.ops.len() + 2) as int] == Op::Finish(
                At::Named(id),
                seq![(Tone::Plain, "["@ + id + "]"@)],
            )
            &&& ui.bars.contains_key(id) && !success ==> after.ops.len() >= ui.ops.len() + 3
                && after.ops[(ui.ops.len() + 2) as int] == Op::Finish(
                At::Named(id),
                seq![(Tone::Plain, "["@ + id + "] failed"@)],
            )
        }),
{
    let shown = if ui.bars.contains_key(id) {
        model::summed_up(
            ui,
            id,
            model::summary_prefix("Build"@, success),
            "["@ + id + (if success {
                "]"@
            } else {
                "] failed"@
            }),
        )
    } else {
        ui
    };
    let other = model::other_child(Child::Building(id));
    let less = Ui { children: shown.children.filter(other), ..shown };
    laws::lemma_refreshed(less);
    lemma_redrawn_ops(less);
    lemma_gone(shown.children, Child::Building(id));
}

proof fn lemma_gone(list: Seq<Child>, c: Child)
    ensures
        !list.filter(model::other_child(c)).contains(c),
    decreases list.len(),
{
    reveal(Seq::filter);
    if list.len() > 0 {
        let front = list.drop_last();
        lemma_gone(front, c);
        crate::order::lemma_contains_push(
            front.filter(model::other_child(c)),
            list.last(),
            c,
        );
    }
}

proof fn lemma_redrawn_ops(ui: Ui)
    ensures
        model::refreshed(ui).ops.len() >= ui.ops.len(),
        forall|i: int| 0 <= i < ui.ops.len() ==> #[trigger] model::refreshed(ui).ops[i] == ui.ops[i],
{
    let list = model::ordered(ui.children);
    lemma_more_ops(ui, list, model::last_branch(list));
}

proof fn lemma_more_ops(ui: Ui, list: Seq<Child>, last: Option<Child>)
    ensures
        model::all_redrawn(ui, list, last).ops.len() >= ui.ops.len(),
        forall|i: int|
            0 <= i < ui.ops.len() ==> #[trigger] model::all_redrawn(ui, list, last).ops[i]
                == ui.ops[i],
    decreases list.len(),
{
    if list.len() > 0 {
        lemma_more_ops(ui, list.drop_last(), last);
    }
}

/// The drawing of the end of the tree.
pub open spec fn closes_tree(look: Look) -> bool {
    look == Look::SpinnerLast || look == Look::BlankLast || look == Look::NoteLast || look
        == Look::BarLast
}

/// The tree is closed at its last branch, and at no other; the note on what was fetched has no end of
/// its own and is drawn as the branch that it hangs on.  Where nothing is fetched the branch and the
/// note go blank.
pub proof fn law_branches_drawn(ui: Ui, c: Child, last: Option<Child>)
    ensures
        !(c is FetchDone) ==> (closes_tree(model::look_of(ui, c, last)) <==> last == Some(c)),
        closes_tree(model::look_of(ui, Child::FetchDone, last)) <==> last == Some(
            Child::FetchStage,
        ),
        ui.stage_blank == ui.done_blank ==> (closes_tree(
            model::look_of(ui, Child::FetchDone, last),
        ) <==> closes_tree(model::look_of(ui, Child::FetchStage, last))),
        ({
            let look = model::look_of(ui, c, last);
            &&& look == Look::BlankLast || look == Look::BlankMid <==> c == Child::FetchStage
                && ui.stage_blank || c == Child::FetchDone && ui.done_blank
            &&& look == Look::BarLast || look == Look::BarMid <==> c == Child::GraphQLResolve || c
                == Child::FetchProgress
            &&& look == Look::NoteLast || look == Look::NoteMid <==> c == Child::FetchDone
                && !ui.done_blank
        }),
{
}

/// A note that came later is not blanked when the time of an earlier one is over, nor is anything
/// after the notes are gone; the note of the time is.
pub proof fn law_old_times_are_over(ui: Ui, url: Seq<char>)
    ensures
        ({
            let shown = model::noted(ui, url);
            &&& model::on_idle(shown, ui.idle_gen) == shown
            &&& model::on_idle(shown, shown.idle_gen).done_blank
            &&& !shown.done_blank && shown.done_url == Some(url)
            &&& shown.ops.last() == Op::Timer(shown.idle_gen)
        }),
        model::on_idle(model::stage_cleared(ui), ui.idle_gen) == model::stage_cleared(ui),
{
    lemma_note_ready(ui);
    lemma_stage_cleared(ui);
    let shown = model::noted(ui, url);
    let blank = Ui {
        done_blank: true,
        ..model::forgotten(shown, crate::progress::CACHE_FETCH_DONE_ID@)
    };
    laws::lemma_refreshed(blank);
    assert((Ui { ops: blank.ops, ..model::refreshed(blank) }).done_blank);
}

proof fn lemma_note_ready(ui: Ui)
    ensures
        model::note_ready(ui).idle_gen == ui.idle_gen,
{
    let at = At::Named(crate::progress::CACHE_FETCH_DONE_ID@);
    let more = model::added(
        ui,
        at,
        model::fetch_done_spot(ui),
        Shape::Spinner,
        Look::NoteMid,
        "fetched"@,
        None,
    );
    lemma_joined(more, Child::FetchDone);
}

proof fn lemma_joined(ui: Ui, c: Child)
    ensures
        model::registered(ui, c).idle_gen == ui.idle_gen,
        model::registered(ui, c).bars == ui.bars,
        model::registered(ui, c).fetching_current == ui.fetching_current,
        model::registered(ui, c).fetching_urls == ui.fetching_urls,
        model::unregistered(ui, c).idle_gen == ui.idle_gen,
{
    let next = if ui.children.contains(c) {
        ui
    } else {
        Ui { children: ui.children.push(c), ..ui }
    };
    laws::lemma_refreshed(next);
    let after = Ui { ops: next.ops, ..model::refreshed(next) };
    assert(after.idle_gen == next.idle_gen && after.bars == next.bars);
    assert(after.fetching_current == next.fetching_current && after.fetching_urls
        == next.fetching_urls);
    let rest = Ui { children: ui.children.filter(model::other_child(c)), ..ui };
    laws::lemma_refreshed(rest);
    let gone = Ui { ops: rest.ops, ..model::refreshed(rest) };
    assert(gone.idle_gen == rest.idle_gen);
}

proof fn lemma_stage_cleared(ui: Ui)
    ensures
        model::stage_cleared(ui).idle_gen == model::next_gen(ui.idle_gen),
{
    let stage = crate::progress::CACHE_FETCH_STAGE_ID@;
    let done = crate::progress::CACHE_FETCH_DONE_ID@;
    let once = model::branch_cleared(ui, Child::FetchStage, stage);
    lemma_joined(
        model::emit(Ui { bars: ui.bars.remove(stage), ..ui }, Op::Clear(At::Named(stage))),
        Child::FetchStage,
    );
    assert(once.idle_gen == ui.idle_gen);
    lemma_joined(
        model::emit(Ui { bars: once.bars.remove(done), ..once }, Op::Clear(At::Named(done))),
        Child::FetchDone,
    );
}

/// A repository that is fetched is noted; it is shown if no other one is, and else the other one
/// stays.
pub proof fn law_fetching(ui: Ui, stage: Seq<char>, url: Seq<char>)
    ensures
        ({
            let after = model::on_stage(ui, stage, url);
            let id = crate::progress::CACHE_FETCH_STAGE_ID@;
            &&& after.fetching_urls == ui.fetching_urls.insert(url)
            &&& !after.stage_blank
            &&& after.bars.contains_key(id)
            &&& ui.fetching_current is None || ui.fetching_current == Some(url)
                ==> after.fetching_current == Some(url) && after.bars[id].last == Some(
                model::plain(url),
            )
            &&& ui.fetching_current is Some && ui.fetching_current != Some(url)
                ==> after.fetching_current == ui.fetching_current
        }),
{
    let id = crate::progress::CACHE_FETCH_STAGE_ID@;
    let at = At::Named(id);
    let start = Ui { fetching_urls: ui.fetching_urls.insert(url), ..ui };
    lemma_joined(
        model::added(
            start,
            at,
            model::fetch_stage_spot(start),
            Shape::Spinner,
            Look::SpinnerMid,
            "Fetching"@,
            Some(100),
        ),
        Child::FetchStage,
    );
    let ready = model::stage_ready(start);
    assert(ready.bars.contains_key(id));
    let awake = model::emit(
        Ui { stage_blank: false, ..ready },
        Op::Prefix(at, model::plain(stage)),
    );
    let shown = if awake.fetching_current is None || awake.fetching_current == Some(url) {
        Ui { fetching_current: Some(url), ..model::said(awake, at, model::plain(url)) }
    } else {
        awake
    };
    laws::lemma_refreshed(shown);
    let after = Ui { ops: shown.ops, ..model::refreshed(shown) };
    assert(after.fetching_urls == shown.fetching_urls && after.stage_blank == shown.stage_blank);
    assert(after.bars == shown.bars && after.fetching_current == shown.fetching_current);
}

/// A new branch goes below what belongs above it, as near as can be, and else above what belongs
/// below it.
pub proof fn law_new_branches(ui: Ui)
    ensures
        ({
            let stage = crate::progress::CACHE_FETCH_STAGE_ID@;
            let done = crate::progress::CACHE_FETCH_DONE_ID@;
            let objects = CACHE_FETCH_PROGRESS_ID@;
            let has_stage = ui.bars.contains_key(stage);
            let has_done = ui.bars.contains_key(done);
            let has_objects = ui.bars.contains_key(objects);
            let looks = ui.updating is Some;
            &&& has_done ==> model::fetch_progress_spot(ui) == Spot::After(At::Named(done))
            &&& has_stage && !has_done ==> model::fetch_progress_spot(ui) == Spot::After(
                At::Named(stage),
            )
            &&& looks && !has_stage && !has_done ==> model::fetch_progress_spot(ui)
                == Spot::After(At::Updating)
            &&& looks ==> model::graphql_spot(ui) == Spot::Before(At::Updating)
            &&& has_stage && !looks ==> model::graphql_spot(ui) == Spot::Before(At::Named(stage))
            &&& has_objects && !looks && !has_stage ==> model::graphql_spot(ui) == Spot::Before(
                At::Named(objects),
            )
            &&& looks ==> model::fetch_stage_spot(ui) == Spot::After(At::Updating)
            &&& has_done && !looks ==> model::fetch_stage_spot(ui) == Spot::Before(At::Named(done))
            &&& has_objects && !looks && !has_done ==> model::fetch_stage_spot(ui)
                == Spot::Before(At::Named(objects))
            &&& has_stage ==> model::fetch_done_spot(ui) == Spot::After(At::Named(stage))
            &&& looks && !has_stage ==> model::fetch_done_spot(ui) == Spot::After(At::Updating)
            &&& has_objects && !looks && !has_stage ==> model::fetch_done_spot(ui)
                == Spot::Before(At::Named(objects))
            &&& !looks && !has_stage && !has_done && !has_objects ==> {
                &&& model::fetch_progress_spot(ui) == Spot::End
                &&& model::graphql_spot(ui) == Spot::End
                &&& model::fetch_stage_spot(ui) == Spot::End
                &&& model::fetch_done_spot(ui) == Spot::End
            }
        }),
{
}

} // verus!
