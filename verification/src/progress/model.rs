//! What each message does to the screen.

use crate::log;
use crate::log::Message;
use crate::names;
use crate::path;
use crate::path::Part;
use crate::progress::table;
use crate::progress::{At, Bar, Child, Look, Op, Shape, Spot, Tone};
use crate::progress::{
    CACHE_FETCH_DONE_ID, CACHE_FETCH_PROGRESS_ID, CACHE_FETCH_STAGE_ID, CONFIG_FILES,
    GRAPHQL_PROGRESS_ID, INSTALL_SKIPPED, INSTALL_YANK, LOADING,
};
use crate::text;
use vstd::prelude::*;

verus! {

/// The state of the progress, and what is left to do on the screen.
#[verifier::ext_equal]
pub struct Ui {
    pub bars: Map<Seq<char>, Bar>,
    pub updating: Option<Bar>,
    pub skipped: usize,
    pub yanked: usize,
    pub not_installed: Seq<Seq<char>>,
    pub updated: Seq<Seq<char>>,
    pub installed: Seq<Seq<char>>,
    pub dotgit_missing: Seq<Seq<char>>,
    pub objects: Map<Seq<char>, (usize, usize)>,
    pub updating_urls: Set<Seq<char>>,
    pub updating_current: Option<Seq<char>>,
    pub fetching_urls: Set<Seq<char>>,
    pub fetching_current: Option<Seq<char>>,
    pub done_url: Option<Seq<char>>,
    pub stage_blank: bool,
    pub done_blank: bool,
    pub idle_gen: u64,
    pub children: Seq<Child>,
    pub config_files: Seq<Seq<Part>>,
    pub title: bool,
    pub running: Option<usize>,
    pub running_count: usize,
    pub ops: Seq<Op>,
}

/// Nothing is shown.
pub open spec fn nothing_shown() -> Ui {
    Ui {
        bars: Map::empty(),
        updating: None,
        skipped: 0,
        yanked: 0,
        not_installed: Seq::empty(),
        updated: Seq::empty(),
        installed: Seq::empty(),
        dotgit_missing: Seq::empty(),
        objects: Map::empty(),
        updating_urls: names::no_members(),
        updating_current: None,
        fetching_urls: names::no_members(),
        fetching_current: None,
        done_url: None,
        stage_blank: false,
        done_blank: false,
        idle_gen: 0,
        children: Seq::empty(),
        config_files: Seq::empty(),
        title: false,
        running: None,
        running_count: 0,
        ops: Seq::empty(),
    }
}

/// Only the configuration files are shown.
pub open spec fn started() -> Ui {
    said(
        added(
            nothing_shown(),
            At::Named(CONFIG_FILES@),
            Spot::End,
            Shape::NoLength,
            Look::Plain,
            "Config"@,
            None,
        ),
        At::Named(CONFIG_FILES@),
        plain("0 files"@),
    )
}

/// One more thing to do.
pub open spec fn emit(ui: Ui, op: Op) -> Ui {
    Ui { ops: ui.ops.push(op), ..ui }
}

/// What is known of a bar.
pub open spec fn bar_at(ui: Ui, at: At) -> Option<Bar> {
    match at {
        At::Named(name) => if ui.bars.contains_key(name) {
            Some(ui.bars[name])
        } else {
            None
        },
        At::Updating => ui.updating,
    }
}

/// A bar in place of what was known of it.
pub open spec fn with_bar(ui: Ui, at: At, bar: Bar) -> Ui {
    match at {
        At::Named(name) => Ui { bars: ui.bars.insert(name, bar), ..ui },
        At::Updating => Ui { updating: Some(bar), ..ui },
    }
}

/// A bar takes a message that it does not show yet.
pub open spec fn said(ui: Ui, at: At, message: Seq<(Tone, Seq<char>)>) -> Ui {
    match bar_at(ui, at) {
        None => ui,
        Some(bar) => if bar.last == Some(message) {
            ui
        } else {
            emit(with_bar(ui, at, Bar { last: Some(message), ..bar }), Op::Message(at, message))
        },
    }
}

/// A bar forgets its message.
pub open spec fn forgotten(ui: Ui, name: Seq<char>) -> Ui {
    if ui.bars.contains_key(name) {
        Ui { bars: ui.bars.insert(name, Bar { last: None, ..ui.bars[name] }), ..ui }
    } else {
        ui
    }
}

pub open spec fn plain(s: Seq<char>) -> Seq<(Tone, Seq<char>)> {
    seq![(Tone::Plain, s)]
}

/// A new bar.
pub open spec fn fresh_bar(shape: Shape) -> Bar {
    Bar {
        last: None,
        position: 0,
        length: match shape {
            Shape::Length(n) => Some(n),
            _ => None,
        },
    }
}

/// A new bar is added.
pub open spec fn added(
    ui: Ui,
    bar: At,
    place: Spot,
    shape: Shape,
    look: Look,
    prefix: Seq<char>,
    tick: Option<u64>,
) -> Ui {
    emit(
        with_bar(ui, bar, fresh_bar(shape)),
        Op::Add { bar, place, shape, look, prefix, tick },
    )
}

/// The bar of a branch.
pub open spec fn at_of(c: Child) -> At {
    match c {
        Child::FetchStage => At::Named(CACHE_FETCH_STAGE_ID@),
        Child::FetchDone => At::Named(CACHE_FETCH_DONE_ID@),
        Child::FetchProgress => At::Named(CACHE_FETCH_PROGRESS_ID@),
        Child::Updating => At::Updating,
        Child::GraphQLResolve => At::Named(GRAPHQL_PROGRESS_ID@),
        Child::Building(id) => At::Named(id),
    }
}

/// The order of the branches from top to bottom.
pub open spec fn category_rank(c: Child) -> int {
    match c {
        Child::GraphQLResolve => 0,
        Child::Updating => 1,
        Child::FetchStage => 2,
        Child::FetchDone => 3,
        Child::FetchProgress => 4,
        Child::Building(_) => 5,
    }
}

pub open spec fn has_rank(rank: int) -> spec_fn(Child) -> bool {
    |c: Child| category_rank(c) == rank
}

/// The branches up to a rank, by rank; those of one rank in the order in which they came.
pub open spec fn ordered_below(list: Seq<Child>, rank: nat) -> Seq<Child>
    decreases rank,
{
    if rank == 0 {
        Seq::empty()
    } else {
        ordered_below(list, (rank - 1) as nat) + list.filter(has_rank(rank - 1))
    }
}

/// The branches from top to bottom.
pub open spec fn ordered(list: Seq<Child>) -> Seq<Child> {
    ordered_below(list, 6)
}

/// The last branch that hangs on the tree itself: the note on the fetched repository does not.
pub open spec fn last_branch(list: Seq<Child>) -> Option<Child>
    decreases list.len(),
{
    if list.len() == 0 {
        None
    } else if list.last() !is FetchDone {
        Some(list.last())
    } else {
        last_branch(list.drop_last())
    }
}

/// The layout of a branch, given the last branch.
pub open spec fn look_of(ui: Ui, c: Child, last: Option<Child>) -> Look {
    let is_last = last == Some(c);
    let fetch_is_last = last == Some(Child::FetchStage);
    match c {
        Child::FetchStage => if ui.stage_blank {
            if is_last {
                Look::BlankLast
            } else {
                Look::BlankMid
            }
        } else if is_last {
            Look::SpinnerLast
        } else {
            Look::SpinnerMid
        },
        Child::FetchDone => if ui.done_blank {
            if fetch_is_last {
                Look::BlankLast
            } else {
                Look::BlankMid
            }
        } else if fetch_is_last {
            Look::NoteLast
        } else {
            Look::NoteMid
        },
        Child::GraphQLResolve | Child::FetchProgress => if is_last {
            Look::BarLast
        } else {
            Look::BarMid
        },
        Child::Updating | Child::Building(_) => if is_last {
            Look::SpinnerLast
        } else {
            Look::SpinnerMid
        },
    }
}

/// A branch is drawn again, if it has a bar.
pub open spec fn redrawn(ui: Ui, c: Child, last: Option<Child>) -> Ui {
    if bar_at(ui, at_of(c)) is Some {
        emit(ui, Op::Redraw(at_of(c), look_of(ui, c, last)))
    } else {
        ui
    }
}

/// Branches are drawn again, from the first to the last.
pub open spec fn all_redrawn(ui: Ui, list: Seq<Child>, last: Option<Child>) -> Ui
    decreases list.len(),
{
    if list.len() == 0 {
        ui
    } else {
        redrawn(all_redrawn(ui, list.drop_last(), last), list.last(), last)
    }
}

/// The tree is drawn again.
pub open spec fn refreshed(ui: Ui) -> Ui {
    let list = ordered(ui.children);
    all_redrawn(ui, list, last_branch(list))
}

/// A branch is on the tree.
pub open spec fn registered(ui: Ui, c: Child) -> Ui {
    refreshed(
        if ui.children.contains(c) {
            ui
        } else {
            Ui { children: ui.children.push(c), ..ui }
        },
    )
}

pub open spec fn other_child(c: Child) -> spec_fn(Child) -> bool {
    |k: Child| k != c
}

/// A branch is off the tree.
pub open spec fn unregistered(ui: Ui, c: Child) -> Ui {
    refreshed(Ui { children: ui.children.filter(other_child(c)), ..ui })
}

/// The objects go under the note, else under the repository that is fetched, else under the
/// revisions that are looked up.
pub open spec fn fetch_progress_spot(ui: Ui) -> Spot {
    if ui.bars.contains_key(CACHE_FETCH_DONE_ID@) {
        Spot::After(At::Named(CACHE_FETCH_DONE_ID@))
    } else if ui.bars.contains_key(CACHE_FETCH_STAGE_ID@) {
        Spot::After(At::Named(CACHE_FETCH_STAGE_ID@))
    } else if ui.updating is Some {
        Spot::After(At::Updating)
    } else {
        Spot::End
    }
}

/// The revisions to resolve go above all other branches.
pub open spec fn graphql_spot(ui: Ui) -> Spot {
    if ui.updating is Some {
        Spot::Before(At::Updating)
    } else if ui.bars.contains_key(CACHE_FETCH_STAGE_ID@) {
        Spot::Before(At::Named(CACHE_FETCH_STAGE_ID@))
    } else if ui.bars.contains_key(CACHE_FETCH_PROGRESS_ID@) {
        Spot::Before(At::Named(CACHE_FETCH_PROGRESS_ID@))
    } else {
        Spot::End
    }
}

/// The repository that is fetched goes under the revisions that are looked up, and above the
/// note and the objects.
pub open spec fn fetch_stage_spot(ui: Ui) -> Spot {
    if ui.updating is Some {
        Spot::After(At::Updating)
    } else if ui.bars.contains_key(CACHE_FETCH_DONE_ID@) {
        Spot::Before(At::Named(CACHE_FETCH_DONE_ID@))
    } else if ui.bars.contains_key(CACHE_FETCH_PROGRESS_ID@) {
        Spot::Before(At::Named(CACHE_FETCH_PROGRESS_ID@))
    } else {
        Spot::End
    }
}

/// The note goes under the repository that is fetched, and above the objects.
pub open spec fn fetch_done_spot(ui: Ui) -> Spot {
    if ui.bars.contains_key(CACHE_FETCH_STAGE_ID@) {
        Spot::After(At::Named(CACHE_FETCH_STAGE_ID@))
    } else if ui.updating is Some {
        Spot::After(At::Updating)
    } else if ui.bars.contains_key(CACHE_FETCH_PROGRESS_ID@) {
        Spot::Before(At::Named(CACHE_FETCH_PROGRESS_ID@))
    } else {
        Spot::End
    }
}

/// The bar of the repository that is fetched is there.
pub open spec fn stage_ready(ui: Ui) -> Ui {
    if ui.bars.contains_key(CACHE_FETCH_STAGE_ID@) {
        ui
    } else {
        registered(
            added(
                ui,
                At::Named(CACHE_FETCH_STAGE_ID@),
                fetch_stage_spot(ui),
                Shape::Spinner,
                Look::SpinnerMid,
                "Fetching"@,
                Some(100),
            ),
            Child::FetchStage,
        )
    }
}

/// A repository is fetched.  The one that is shown stays.
pub open spec fn on_stage(ui: Ui, stage: Seq<char>, url: Seq<char>) -> Ui {
    let ready = stage_ready(Ui { fetching_urls: ui.fetching_urls.insert(url), ..ui });
    let at = At::Named(CACHE_FETCH_STAGE_ID@);
    let awake = emit(Ui { stage_blank: false, ..ready }, Op::Prefix(at, plain(stage)));
    refreshed(
        if awake.fetching_current is None || awake.fetching_current == Some(url) {
            Ui { fetching_current: Some(url), ..said(awake, at, plain(url)) }
        } else {
            awake
        },
    )
}

/// The note on the fetched repository is there.
pub open spec fn note_ready(ui: Ui) -> Ui {
    if ui.bars.contains_key(CACHE_FETCH_DONE_ID@) {
        ui
    } else {
        registered(
            added(
                ui,
                At::Named(CACHE_FETCH_DONE_ID@),
                fetch_done_spot(ui),
                Shape::Spinner,
                Look::NoteMid,
                "fetched"@,
                None,
            ),
            Child::FetchDone,
        )
    }
}

/// The number after `n`.
pub open spec fn next_gen(n: u64) -> u64 {
    if n == u64::MAX {
        0
    } else {
        (n + 1) as u64
    }
}

/// The note shows a repository.
pub open spec fn noted(ui: Ui, url: Seq<char>) -> Ui {
    let shown = said(
        note_ready(ui),
        At::Named(CACHE_FETCH_DONE_ID@),
        seq![(Tone::DimItalic, url)],
    );
    let idle_gen = next_gen(shown.idle_gen);
    emit(
        Ui { done_url: Some(url), done_blank: false, idle_gen, ..shown },
        Op::Timer(idle_gen),
    )
}

/// A repository is fetched no more: the bar goes blank after the last one, and shows `next`
/// after the one it showed.
pub open spec fn on_fetched(ui: Ui, url: Seq<char>, next: Seq<char>) -> Ui {
    let shown = noted(ui, url);
    let left = Ui { fetching_urls: shown.fetching_urls.remove(url), ..shown };
    refreshed(
        if left.fetching_urls == names::no_members() {
            forgotten(
                Ui { stage_blank: true, fetching_current: None, ..left },
                CACHE_FETCH_STAGE_ID@,
            )
        } else if left.fetching_current == Some(url) {
            said(
                Ui { fetching_current: Some(next), ..left },
                At::Named(CACHE_FETCH_STAGE_ID@),
                plain(next),
            )
        } else {
            left
        },
    )
}

/// A branch with its bar goes.
pub open spec fn branch_cleared(ui: Ui, c: Child, name: Seq<char>) -> Ui {
    if ui.bars.contains_key(name) {
        unregistered(
            emit(Ui { bars: ui.bars.remove(name), ..ui }, Op::Clear(At::Named(name))),
            c,
        )
    } else {
        ui
    }
}

/// Nothing is fetched.
pub open spec fn stage_cleared(ui: Ui) -> Ui {
    let cleared = branch_cleared(
        branch_cleared(ui, Child::FetchStage, CACHE_FETCH_STAGE_ID@),
        Child::FetchDone,
        CACHE_FETCH_DONE_ID@,
    );
    Ui {
        fetching_urls: names::no_members(),
        fetching_current: None,
        done_url: None,
        stage_blank: false,
        done_blank: false,
        idle_gen: next_gen(cleared.idle_gen),
        ..cleared
    }
}

/// The bar of the revisions that are looked up is there.
pub open spec fn updating_ready(ui: Ui) -> Ui {
    if ui.updating is Some {
        ui
    } else {
        added(
            ui,
            At::Updating,
            Spot::End,
            Shape::Spinner,
            Look::SpinnerMid,
            "Updating"@,
            Some(100),
        )
    }
}

/// The branch of a bar that was not there before is on the tree.
pub open spec fn joined_tree(ui: Ui, existed: bool, c: Child) -> Ui {
    if existed {
        ui
    } else {
        registered(ui, c)
    }
}

/// The revision of a repository is looked up.  The one that is shown stays.
pub open spec fn on_update(ui: Ui, url: Seq<char>) -> Ui {
    let ready = updating_ready(ui);
    let more = Ui { updating_urls: ready.updating_urls.insert(url), ..ready };
    let shown = if more.updating_current is None {
        said(Ui { updating_current: Some(url), ..more }, At::Updating, plain(url))
    } else {
        more
    };
    joined_tree(shown, ui.updating is Some, Child::Updating)
}

/// The revision of a repository is known: the last one stays, and `next` is shown after the one
/// that was.
pub open spec fn on_updated(ui: Ui, url: Seq<char>, next: Seq<char>) -> Ui {
    let ready = updating_ready(ui);
    let left = Ui { updating_urls: ready.updating_urls.remove(url), ..ready };
    let shown = if left.updating_urls == names::no_members() {
        Ui { updating_current: None, ..said(left, At::Updating, plain(url)) }
    } else if left.updating_current is None || left.updating_current == Some(url) {
        said(Ui { updating_current: Some(next), ..left }, At::Updating, plain(next))
    } else {
        left
    };
    joined_tree(shown, ui.updating is Some, Child::Updating)
}

/// A bar with a prefix and a message is there.
pub open spec fn line_ready(ui: Ui, name: Seq<char>, prefix: Seq<char>) -> Ui {
    if ui.bars.contains_key(name) {
        ui
    } else {
        added(ui, At::Named(name), Spot::End, Shape::NoLength, Look::Plain, prefix, None)
    }
}

/// A repository is in a stage of its acquisition.
pub open spec fn on_cache(ui: Ui, stage: Seq<char>, url: Seq<char>, next: Seq<char>) -> Ui {
    if stage == "Fetching"@ || stage == "Initializing"@ {
        on_stage(ui, stage, url)
    } else if stage == "Fetching:done"@ {
        on_fetched(ui, url, next)
    } else if stage == "Updating"@ {
        on_update(ui, url)
    } else if stage == "Updating:done"@ {
        on_updated(ui, url, next)
    } else {
        said(line_ready(ui, stage, stage), At::Named(stage), plain(url))
    }
}

/// How much more there is than before.
pub open spec fn more(now: usize, before: usize) -> u64 {
    if now >= before {
        (now - before) as u64
    } else {
        0
    }
}

/// The bar of the objects is there.
pub open spec fn objects_ready(ui: Ui) -> Ui {
    if ui.bars.contains_key(CACHE_FETCH_PROGRESS_ID@) {
        ui
    } else {
        registered(
            added(
                ui,
                At::Named(CACHE_FETCH_PROGRESS_ID@),
                fetch_progress_spot(ui),
                Shape::Length(0),
                Look::BarLast,
                "Objects"@,
                Some(100),
            ),
            Child::FetchProgress,
        )
    }
}

pub open spec fn sum_capped(a: u64, b: u64) -> u64 {
    if a + b > u64::MAX {
        u64::MAX
    } else {
        (a + b) as u64
    }
}

pub open spec fn sum_wrapped(a: u64, b: u64) -> u64 {
    if a + b > u64::MAX {
        (a + b - u64::MAX - 1) as u64
    } else {
        (a + b) as u64
    }
}

/// A bar that is longer and further on.
pub open spec fn advanced_bar(bar: Bar, length: u64, position: u64) -> Bar {
    Bar {
        length: match bar.length {
            Some(n) => Some(sum_capped(n, length)),
            None => None,
        },
        position: sum_wrapped(bar.position, position),
        ..bar
    }
}

/// How far a bar is, in percent; nothing if it is at its end.
pub open spec fn percent(bar: Bar) -> Option<u8> {
    let given = match bar.length {
        Some(n) => n,
        None => bar.position,
    };
    let len = if given == 0 {
        1
    } else {
        given as int
    };
    if bar.position < len {
        Some((bar.position * 100 / len) as u8)
    } else {
        None
    }
}

/// The title shows the progress.
pub open spec fn titled(ui: Ui, value: Option<u8>) -> Ui {
    emit(Ui { title: true, ..ui }, Op::Title(value))
}

/// The title shows no progress.
pub open spec fn untitled(ui: Ui) -> Ui {
    if ui.title {
        emit(Ui { title: false, ..ui }, Op::ClearTitle)
    } else {
        ui
    }
}

/// Objects of a repository are received: the bar adds those of all repositories.
pub open spec fn on_objects(ui: Ui, id: Seq<char>, total: usize, received: usize) -> Ui {
    let at = At::Named(CACHE_FETCH_PROGRESS_ID@);
    let ready = objects_ready(ui);
    let before = if ready.objects.contains_key(id) {
        ready.objects[id]
    } else {
        (0usize, 0usize)
    };
    let length = more(total, before.0);
    let position = more(received, before.1);
    let bar = advanced_bar(ready.bars[CACHE_FETCH_PROGRESS_ID@], length, position);
    let moved = emit(
        emit(with_bar(ready, at, bar), Op::IncLength(at, length)),
        Op::Inc(at, position),
    );
    titled(Ui { objects: moved.objects.insert(id, (total, received)), ..moved }, percent(bar))
}

/// The columns of the prefix of a build.
pub const MAX_PREFIX_WIDTH: usize = 30;

/// A text, filled up with spaces.
pub open spec fn filled(s: Seq<char>, width: usize) -> Seq<char> {
    s + text::spaces_text(
        if width < MAX_PREFIX_WIDTH {
            (MAX_PREFIX_WIDTH - width) as nat
        } else {
            0
        },
    )
}

/// The prefix of a build.
pub open spec fn build_prefix(id: Seq<char>) -> Seq<char> {
    let head = "Building ["@ + id + "]"@;
    filled(head, text::width_of(head))
}

/// A build shows a line, given its prefix.
pub open spec fn build_shown(
    ui: Ui,
    id: Seq<char>,
    stdtype: usize,
    shown: Seq<char>,
    prefix: Seq<char>,
) -> Ui {
    let at = At::Named(id);
    let ready = if ui.bars.contains_key(id) {
        ui
    } else {
        added(ui, at, Spot::End, Shape::Spinner, Look::SpinnerMid, prefix, Some(100))
    };
    let message = seq![
        (Tone::Dim, text::decimal_text(stdtype as nat) + ">"@),
        (Tone::Plain, " "@ + shown),
    ];
    joined_tree(
        emit(said(ready, at, message), Op::Prefix(at, plain(prefix))),
        ui.bars.contains_key(id),
        Child::Building(id),
    )
}

/// A build has written a line.
pub open spec fn on_build_line(ui: Ui, id: Seq<char>, stdtype: usize, line: Seq<char>) -> Ui {
    match log::sanitized(line) {
        Some(shown) => build_shown(ui, id, stdtype, shown, build_prefix(id)),
        None => ui,
    }
}

/// The prefix of a line that stays.
pub open spec fn summary_prefix(label: Seq<char>, ok: bool) -> Seq<(Tone, Seq<char>)> {
    seq![
        if ok {
            (Tone::Green, "✓"@)
        } else {
            (Tone::Red, "✗"@)
        },
        (Tone::Plain, " "@),
        (Tone::Blue, label),
    ]
}

/// A bar ends with a line that stays.
pub open spec fn summed_up(
    ui: Ui,
    name: Seq<char>,
    prefix: Seq<(Tone, Seq<char>)>,
    message: Seq<char>,
) -> Ui {
    let at = At::Named(name);
    emit(
        emit(
            emit(Ui { bars: ui.bars.remove(name), ..ui }, Op::Style(at, Look::Summary)),
            Op::Prefix(at, prefix),
        ),
        Op::Finish(at, plain(message)),
    )
}

/// A build is over.
pub open spec fn on_build_end(ui: Ui, id: Seq<char>, success: bool) -> Ui {
    let shown = if ui.bars.contains_key(id) {
        summed_up(
            ui,
            id,
            summary_prefix("Build"@, success),
            "["@ + id + (if success {
                "]"@
            } else {
                "] failed"@
            }),
        )
    } else {
        ui
    };
    unregistered(shown, Child::Building(id))
}

/// Loading begins: work that began before is counted.
pub open spec fn on_load_begin(ui: Ui, total: usize) -> Ui {
    let shown = added(
        ui,
        At::Named(LOADING@),
        Spot::End,
        Shape::Length(total as u64),
        Look::Loading,
        "Loading"@,
        Some(120),
    );
    titled(
        emit(
            Ui { running: Some(shown.running_count), ..shown },
            Op::Running(shown.running_count),
        ),
        None,
    )
}

/// The number of plugins that are worked on is set.
pub open spec fn counted(ui: Ui, n: usize) -> Ui {
    let set = Ui { running_count: n, ..ui };
    if set.running is Some {
        emit(Ui { running: Some(n), ..set }, Op::Running(n))
    } else {
        set
    }
}

/// Work on a plugin begins.
pub open spec fn on_running(ui: Ui) -> Ui {
    counted(
        ui,
        if ui.running_count == usize::MAX {
            usize::MAX
        } else {
            (ui.running_count + 1) as usize
        },
    )
}

/// Work on a plugin is over.
pub open spec fn on_running_done(ui: Ui) -> Ui {
    counted(
        ui,
        if ui.running_count == 0 {
            0
        } else {
            (ui.running_count - 1) as usize
        },
    )
}

/// A plugin is loaded.
pub open spec fn on_plugin_done(ui: Ui) -> Ui {
    if ui.bars.contains_key(LOADING@) {
        let at = At::Named(LOADING@);
        emit(with_bar(ui, at, advanced_bar(ui.bars[LOADING@], 0, 1)), Op::Inc(at, 1))
    } else {
        ui
    }
}

/// The note was shown long enough, unless another came after it.
pub open spec fn on_idle(ui: Ui, idle_gen: u64) -> Ui {
    if idle_gen != ui.idle_gen {
        ui
    } else {
        refreshed(Ui { done_blank: true, ..forgotten(ui, CACHE_FETCH_DONE_ID@) })
    }
}

/// A bar ends when loading does; that of the plugins to load stays, and turns no more.
pub open spec fn ended(ui: Ui, name: Seq<char>, bar: Bar) -> Ui {
    if name == LOADING@ {
        emit(
            Ui { bars: ui.bars.insert(name, bar), ..ui },
            Op::StopTick(At::Named(name)),
        )
    } else {
        emit(ui, Op::Clear(At::Named(name)))
    }
}

/// Bars end.
pub open spec fn all_ended(ui: Ui, list: Seq<Seq<char>>, bars: Map<Seq<char>, Bar>) -> Ui
    decreases list.len(),
{
    if list.len() == 0 {
        ui
    } else {
        ended(all_ended(ui, list.drop_last(), bars), list.last(), bars[list.last()])
    }
}

/// The bar of the objects goes.
pub open spec fn objects_cleared(ui: Ui) -> Ui {
    if ui.bars.contains_key(CACHE_FETCH_PROGRESS_ID@) {
        let at = At::Named(CACHE_FETCH_PROGRESS_ID@);
        emit(
            emit(
                Ui { bars: ui.bars.remove(CACHE_FETCH_PROGRESS_ID@), ..ui },
                Op::Style(at, Look::Plain),
            ),
            Op::Clear(at),
        )
    } else {
        ui
    }
}

/// The bar of the revisions that are looked up goes.
pub open spec fn updating_cleared(ui: Ui) -> Ui {
    if ui.updating is Some {
        unregistered(
            emit(Ui { updating: None, ..ui }, Op::Clear(At::Updating)),
            Child::Updating,
        )
    } else {
        ui
    }
}

/// Loading is over.
pub open spec fn on_load_done(ui: Ui) -> Ui {
    let quiet = Ui { running: None, running_count: 0, ..untitled(stage_cleared(ui)) };
    let cleared = objects_cleared(quiet);
    let bars = cleared.bars;
    let empty = updating_cleared(Ui { bars: Map::empty(), ..cleared });
    Ui { children: Seq::empty(), ..all_ended(empty, table::names_of(bars), bars) }
}

/// A header with names under it.
pub open spec fn name_block(
    header: Seq<(Tone, Seq<char>)>,
    list: Seq<Seq<char>>,
) -> Seq<(Tone, Seq<char>)> {
    let body = log::ellipsis_text(list);
    if body.len() == 0 {
        header
    } else {
        header.push((Tone::Plain, "\n    "@)).push((Tone::Dim, body))
    }
}

/// A warning about plugins.
pub open spec fn warning(list: Seq<Seq<char>>, about: Seq<char>) -> Seq<(Tone, Seq<char>)> {
    name_block(
        seq![
            (Tone::Yellow, "⚠"@),
            (Tone::Plain, " "@ + text::decimal_text(list.len()) + about),
        ],
        list,
    )
}

/// What was done to plugins.
pub open spec fn plugin_block(label: Seq<char>, list: Seq<Seq<char>>) -> Seq<(Tone, Seq<char>)> {
    name_block(
        summary_prefix(label, true).push((Tone::Plain, " "@)).push(
            (Tone::Green, text::decimal_text(list.len())),
        ).push((Tone::Plain, " plugins"@)),
        list,
    )
}

/// How many plugins were loaded, and into how many packages they were merged if into fewer.
pub open spec fn loaded_line(total: usize, merged: usize) -> Seq<(Tone, Seq<char>)> {
    let head = summary_prefix("Loaded"@, true).push((Tone::Plain, " "@)).push(
        (Tone::Green, text::decimal_text(total as nat)),
    );
    if total == merged {
        head.push((Tone::Plain, " plugins"@))
    } else {
        head.push((Tone::Plain, " plugins "@)).push((Tone::Dim, "·"@)).push(
            (Tone::Plain, " "@),
        ).push((Tone::Green, "📦 "@ + text::decimal_text(merged as nat)))
    }
}

/// A block is printed if there are names for it.
pub open spec fn printed_if(
    ui: Ui,
    list: Seq<Seq<char>>,
    block: Seq<(Tone, Seq<char>)>,
) -> Ui {
    if list.len() == 0 {
        ui
    } else {
        emit(ui, Op::Print(block))
    }
}

/// A bar goes.
pub open spec fn cleared_bar(ui: Ui, name: Seq<char>) -> Ui {
    if ui.bars.contains_key(name) {
        emit(Ui { bars: ui.bars.remove(name), ..ui }, Op::Clear(At::Named(name)))
    } else {
        ui
    }
}

/// Plugins are merged.
pub open spec fn on_merged(ui: Ui, total: usize, merged: usize) -> Ui {
    let cleared = cleared_bar(ui, LOADING@);
    let warned = printed_if(
        cleared,
        ui.not_installed,
        warning(ui.not_installed, " plugins not installed (run with -i to install)"@),
    );
    let updated = printed_if(warned, ui.updated, plugin_block("Updated"@, ui.updated));
    let installed = printed_if(updated, ui.installed, plugin_block("Installed"@, ui.installed));
    emit(installed, Op::Print(loaded_line(total, merged)))
}

/// A configuration file was found.
pub open spec fn on_config_found(ui: Ui, p: Seq<Part>) -> Ui {
    let n = text::decimal_text(ui.config_files.len() + 1);
    let shown = said(
        ui,
        At::Named(CONFIG_FILES@),
        seq![(Tone::Plain, n + " files: "@), (Tone::Dim, path::path_text(p))],
    );
    Ui { config_files: ui.config_files.push(p), ..shown }
}

/// A line about configuration files; the first one names them.
pub open spec fn config_line(line: Seq<char>, first: bool) -> Seq<(Tone, Seq<char>)> {
    if first {
        seq![(Tone::DimBlue, line.take(6)), (Tone::Plain, line.skip(6))]
    } else {
        seq![(Tone::Dim, line)]
    }
}

/// Lines about configuration files are printed.
pub open spec fn config_printed(ui: Ui, lines: Seq<Seq<char>>) -> Ui
    decreases lines.len(),
{
    if lines.len() == 0 {
        ui
    } else {
        emit(
            config_printed(ui, lines.drop_last()),
            Op::Print(config_line(lines.last(), lines.len() == 1)),
        )
    }
}

/// `sorted` are the files in order.
pub open spec fn is_sorted_list(sorted: Seq<Seq<Part>>, files: Seq<Seq<Part>>) -> bool {
    crate::order::sorted_from::<crate::path::Path>(sorted, files)
}

/// Files in order.
pub open spec fn sorted_list(files: Seq<Seq<Part>>) -> Seq<Seq<Part>> {
    choose|sorted: Seq<Seq<Part>>| is_sorted_list(sorted, files)
}

/// All configuration files are found.
pub open spec fn on_config_end(ui: Ui) -> Ui {
    let n = text::decimal_text(ui.config_files.len());
    let shown = said(ui, At::Named(CONFIG_FILES@), plain(n + " files"@));
    let cleared = cleared_bar(shown, CONFIG_FILES@);
    config_printed(
        Ui { config_files: Seq::empty(), ..cleared },
        log::rendered(sorted_list(ui.config_files)),
    )
}

/// Revisions are resolved.
pub open spec fn on_resolved(ui: Ui, resolved: usize, total: usize) -> Ui {
    let at = At::Named(GRAPHQL_PROGRESS_ID@);
    if total == 0 {
        ui
    } else {
        let ready = if ui.bars.contains_key(GRAPHQL_PROGRESS_ID@) {
            ui
        } else {
            registered(
                added(
                    ui,
                    at,
                    graphql_spot(ui),
                    Shape::Length(total as u64),
                    Look::BarLast,
                    "Resolving"@,
                    None,
                ),
                Child::GraphQLResolve,
            )
        };
        let bar = Bar {
            length: Some(total as u64),
            position: resolved as u64,
            ..ready.bars[GRAPHQL_PROGRESS_ID@]
        };
        let moved = emit(
            emit(with_bar(ready, at, bar), Op::Length(at, total as u64)),
            Op::Position(at, resolved as u64),
        );
        if resolved >= total {
            unregistered(cleared_bar(moved, GRAPHQL_PROGRESS_ID@), Child::GraphQLResolve)
        } else {
            moved
        }
    }
}

/// A package is there already.
pub open spec fn on_skipped(ui: Ui, id: Seq<char>) -> Ui {
    said(
        line_ready(Ui { skipped: (ui.skipped + 1) as usize, ..ui }, INSTALL_SKIPPED@, "Up to date"@),
        At::Named(INSTALL_SKIPPED@),
        seq![(Tone::DimItalic, id)],
    )
}

/// A file is copied.
pub open spec fn on_yank(ui: Ui, id: Seq<char>, file: Seq<Part>) -> Ui {
    said(
        line_ready(
            titled(Ui { yanked: (ui.yanked + 1) as usize, ..ui }, None),
            INSTALL_YANK@,
            "Copying"@,
        ),
        At::Named(INSTALL_YANK@),
        seq![
            (Tone::Plain, "in "@),
            (Tone::DimItalic, id),
            (Tone::Plain, ": "@ + path::path_text(file)),
        ],
    )
}

/// Help tags are generated.
pub open spec fn on_help(ui: Ui, dir: Seq<Part>) -> Ui {
    said(
        line_ready(ui, INSTALL_YANK@, ":helptags"@),
        At::Named(INSTALL_YANK@),
        plain(path::path_text(dir)),
    )
}

/// A bar ends with how much there was; without anything it goes.
pub open spec fn totalled(
    ui: Ui,
    name: Seq<char>,
    n: usize,
    label: Seq<char>,
    unit: Seq<char>,
) -> Ui {
    if !ui.bars.contains_key(name) {
        ui
    } else if n != 0 {
        summed_up(ui, name, summary_prefix(label, true), text::decimal_text(n as nat) + unit)
    } else {
        let at = At::Named(name);
        emit(
            emit(Ui { bars: ui.bars.remove(name), ..ui }, Op::Style(at, Look::Summary)),
            Op::Clear(at),
        )
    }
}

/// The installation is over.
pub open spec fn on_install_done(ui: Ui) -> Ui {
    let skipped = totalled(untitled(ui), INSTALL_SKIPPED@, ui.skipped, "Up to date"@, " packages"@);
    let copied = totalled(skipped, INSTALL_YANK@, ui.yanked, "Copied"@, " files"@);
    printed_if(
        copied,
        ui.dotgit_missing,
        warning(
            ui.dotgit_missing,
            " dotgit plugins missing `.git` (run with -u to refresh)"@,
        ),
    )
}

/// What a message does.  `next` is the repository that is shown when the one that was shown is
/// done, if there are others.
pub open spec fn processed(ui: Ui, msg: Message, next: Seq<char>) -> Ui {
    match msg {
        Message::ConfigFound(p) => on_config_found(ui, p@),
        Message::ConfigWalkFinish => on_config_end(ui),
        Message::Cache(stage, url) => on_cache(ui, stage@, url@, next),
        Message::CacheFetchObjectsProgress { id, total_objs_count, received_objs_count } =>
            on_objects(ui, id@, total_objs_count, received_objs_count),
        Message::CacheBuildProgress { id, stdtype, line } => on_build_line(
            ui,
            id@,
            stdtype,
            line@,
        ),
        Message::CacheBuildFinished { id, success } => on_build_end(ui, id@, success),
        Message::LoadBegin { total } => on_load_begin(ui, total),
        Message::LoadPluginDone => on_plugin_done(ui),
        Message::LoadPluginRunning => on_running(ui),
        Message::LoadPluginRunningDone => on_running_done(ui),
        Message::LoadDone => on_load_done(ui),
        Message::FetchDoneIdle { idle_gen } => on_idle(ui, idle_gen),
        Message::PluginNotInstalled(id) => Ui { not_installed: ui.not_installed.push(id@), ..ui },
        Message::PluginUpdated(id) => Ui { updated: ui.updated.push(id@), ..ui },
        Message::PluginInstalled(id) => Ui { installed: ui.installed.push(id@), ..ui },
        Message::PluginDotgitMissing(id) => Ui {
            dotgit_missing: ui.dotgit_missing.push(id@),
            ..ui
        },
        Message::MergeFinished { total, merged } => on_merged(ui, total, merged),
        Message::DetectLockFile(p) => emit(
            ui,
            Op::Print(
                summary_prefix("Lockfile"@, true).push((Tone::Plain, " "@)).push(
                    (Tone::Dim, path::path_text(p@)),
                ),
            ),
        ),
        Message::GraphQLBatchFailed { reason } => emit(
            ui,
            Op::Print(
                summary_prefix("GraphQL"@, false).push(
                    (
                        Tone::Plain,
                        " batch failed ("@ + reason@ + "); falling back to per-repo resolution"@,
                    ),
                ),
            ),
        ),
        Message::GraphQLResolveProgress { resolved, total } => on_resolved(ui, resolved, total),
        Message::InstallSkipped(id) => on_skipped(ui, id@),
        Message::InstallYank { id, which } => on_yank(ui, id@, which@),
        Message::InstallHelp { help_dir } => on_help(ui, help_dir@),
        Message::InstallDone => on_install_done(ui),
        Message::Error(e) => emit(ui, Op::Error(e@)),
    }
}

/// The message can come: configuration files are found as long as their bar is there, and the
/// numbers of packages and files can be counted.
pub open spec fn can_come(ui: Ui, msg: Message) -> bool {
    match msg {
        Message::ConfigFound(_) | Message::ConfigWalkFinish => ui.bars.contains_key(CONFIG_FILES@),
        Message::InstallSkipped(_) => ui.skipped < usize::MAX,
        Message::InstallYank { .. } => ui.yanked < usize::MAX,
        _ => true,
    }
}

/// `next` is one of the other repositories, wherever it is shown.
pub open spec fn is_next(ui: Ui, msg: Message, next: Seq<char>) -> bool {
    match msg {
        Message::Cache(stage, url) => {
            &&& stage@ == "Fetching:done"@ && ui.fetching_urls.remove(url@) != names::no_members()
                ==> ui.fetching_urls.remove(url@).contains(next)
            &&& stage@ == "Updating:done"@ && ui.updating_urls.remove(url@) != names::no_members()
                ==> ui.updating_urls.remove(url@).contains(next)
        },
        _ => true,
    }
}

} // verus!
