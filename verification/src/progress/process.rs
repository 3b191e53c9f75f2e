//! How messages change the progress.

use crate::log;
use crate::log::{ConfigList, Message};
use crate::names;
use crate::names::NameSet;
use crate::order;
use crate::path::{Part, Path};
use crate::progress;
use crate::progress::manager;
use crate::progress::manager::ProgressManager;
use crate::progress::model;
use crate::progress::model::{Ui, MAX_PREFIX_WIDTH};
use crate::progress::table;
use crate::progress::table::BarTable;
use crate::progress::{
    named, one, push_span, At, Bar, BarRef, BarState, Child, ChildKey, Look, Op, Place, Shape, Span,
    Tone, UiOp, CACHE_FETCH_DONE_ID, CACHE_FETCH_PROGRESS_ID, CACHE_FETCH_STAGE_ID, CONFIG_FILES,
    GRAPHQL_PROGRESS_ID, INSTALL_SKIPPED, INSTALL_YANK, LOADING,
};
use crate::text;
use vstd::prelude::*;

verus! {

fn option_is(s: &Option<String>, wanted: &str) -> (is: bool)
    ensures
        is == (text::optional_string(*s) == Some(wanted@)),
{
    match s {
        Some(s) => text::same(s.as_str(), wanted),
        None => false,
    }
}

/// The prefix of a line that stays.
fn summary_prefix(label: &str, ok: bool) -> (prefix: Vec<Span>)
    ensures
        progress::spans(prefix@) == model::summary_prefix(label@, ok),
{
    let mut prefix = if ok {
        one(Tone::Green, "✓")
    } else {
        one(Tone::Red, "✗")
    };
    push_span(&mut prefix, Tone::Plain, " ");
    push_span(&mut prefix, Tone::Blue, label);
    assert(progress::spans(prefix@) =~= model::summary_prefix(label@, ok));
    prefix
}

/// A header with names under it.
fn name_block(header: Vec<Span>, list: &Vec<String>) -> (block: Vec<Span>)
    ensures
        progress::spans(block@) == model::name_block(
            progress::spans(header@),
            text::strings(list@),
        ),
{
    let body = log::ellipsis_names(list);
    let mut block = header;
    if !text::is_empty(body.as_str()) {
        push_span(&mut block, Tone::Plain, "\n    ");
        push_span(&mut block, Tone::Dim, body.as_str());
    }
    block
}

/// A warning about plugins.
fn warning(list: &Vec<String>, about: &str) -> (block: Vec<Span>)
    ensures
        progress::spans(block@) == model::warning(text::strings(list@), about@),
{
    let mut header = one(Tone::Yellow, "⚠");
    let mut count = String::from_str(" ");
    count.append(text::decimal(list.len()).as_str());
    count.append(about);
    push_span(&mut header, Tone::Plain, count.as_str());
    assert(progress::spans(header@) =~= seq![
        (Tone::Yellow, "⚠"@),
        (Tone::Plain, " "@ + text::decimal_text(list@.len()) + about@),
    ]);
    name_block(header, list)
}

/// What was done to plugins.
fn plugin_block(label: &str, list: &Vec<String>) -> (block: Vec<Span>)
    ensures
        progress::spans(block@) == model::plugin_block(label@, text::strings(list@)),
{
    let mut header = summary_prefix(label, true);
    push_span(&mut header, Tone::Plain, " ");
    push_span(&mut header, Tone::Green, text::decimal(list.len()).as_str());
    push_span(&mut header, Tone::Plain, " plugins");
    name_block(header, list)
}

/// How many plugins were loaded, and into how many packages they were merged if into fewer.
fn loaded_line(total: usize, merged: usize) -> (block: Vec<Span>)
    ensures
        progress::spans(block@) == model::loaded_line(total, merged),
{
    let mut block = summary_prefix("Loaded", true);
    push_span(&mut block, Tone::Plain, " ");
    push_span(&mut block, Tone::Green, text::decimal(total).as_str());
    if total == merged {
        push_span(&mut block, Tone::Plain, " plugins");
    } else {
        push_span(&mut block, Tone::Plain, " plugins ");
        push_span(&mut block, Tone::Dim, "·");
        push_span(&mut block, Tone::Plain, " ");
        let packages = String::from_str("📦 ").concat(text::decimal(merged).as_str());
        push_span(&mut block, Tone::Green, packages.as_str());
    }
    block
}

/// A text, filled up with spaces; `width` is the number of its columns.
pub fn fill(s: String, width: usize) -> (filled: String)
    ensures
        filled@ == model::filled(s@, width),
{
    let n: usize = if width < MAX_PREFIX_WIDTH {
        MAX_PREFIX_WIDTH - width
    } else {
        0
    };
    s.concat(text::spaces(n).as_str())
}

/// The prefix of a build.
fn build_prefix(id: &str) -> (prefix: String)
    ensures
        prefix@ == model::build_prefix(id@),
{
    let mut head = String::from_str("Building [");
    head.append(id);
    head.append("]");
    let width: usize = text::display_width(head.as_str());
    fill(head, width)
}

/// How much more there is than before.
fn more(now: usize, before: usize) -> (n: u64)
    ensures
        n == model::more(now, before),
{
    if now >= before {
        (now - before) as u64
    } else {
        0
    }
}

fn sum_capped(a: u64, b: u64) -> (n: u64)
    ensures
        n == model::sum_capped(a, b),
{
    match a.checked_add(b) {
        Some(n) => n,
        None => u64::MAX,
    }
}

fn sum_wrapped(a: u64, b: u64) -> (n: u64)
    ensures
        n == model::sum_wrapped(a, b),
{
    match a.checked_add(b) {
        Some(n) => n,
        None => a - (u64::MAX - b) - 1,
    }
}

fn next_gen(n: u64) -> (next: u64)
    ensures
        next == model::next_gen(n),
{
    if n == u64::MAX {
        0
    } else {
        n + 1
    }
}

/// Moves a bar on.
fn advance(bar: &BarState, length: u64, position: u64) -> (next: BarState)
    ensures
        next@ == model::advanced_bar(bar@, length, position),
{
    let copy = bar.duplicate();
    BarState {
        last_message: copy.last_message,
        position: sum_wrapped(bar.position, position),
        length: match bar.length {
            Some(n) => Some(sum_capped(n, length)),
            None => None,
        },
    }
}

/// How far a bar is, in percent.
fn percent(bar: &BarState) -> (value: Option<u8>)
    ensures
        value == model::percent(bar@),
{
    let given: u64 = match bar.length {
        Some(n) => n,
        None => bar.position,
    };
    let len: u64 = if given == 0 {
        1
    } else {
        given
    };
    if bar.position < len {
        let part: u128 = (bar.position as u128) * 100;
        let value: u128 = part / (len as u128);
        assert(0 <= value < 100) by (nonlinear_arith)
            requires
                value == part / (len as u128),
                part == (bar.position as u128) * 100,
                bar.position < len,
                len >= 1,
        ;
        Some(value as u8)
    } else {
        None
    }
}

proof fn lemma_refreshed(ui: Ui)
    ensures
        (Ui { ops: ui.ops, ..model::refreshed(ui) }) == ui,
{
    let list = model::ordered(ui.children);
    manager::lemma_redrawn(ui, list, model::last_branch(list));
}

proof fn lemma_registered(ui: Ui, c: Child)
    ensures
        model::registered(ui, c).bars == ui.bars,
        model::registered(ui, c).fetching_urls == ui.fetching_urls,
{
    lemma_refreshed(
        if ui.children.contains(c) {
            ui
        } else {
            Ui { children: ui.children.push(c), ..ui }
        },
    );
}

proof fn lemma_note_ready(ui: Ui)
    ensures
        model::note_ready(ui).fetching_urls == ui.fetching_urls,
{
    lemma_registered(
        model::added(
            ui,
            At::Named(CACHE_FETCH_DONE_ID@),
            model::fetch_done_spot(ui),
            Shape::Spinner,
            Look::NoteMid,
            "fetched"@,
            None,
        ),
        Child::FetchDone,
    );
}

proof fn lemma_stages_differ()
    ensures
        "Fetching:done"@ != "Fetching"@,
        "Fetching:done"@ != "Initializing"@,
        "Fetching:done"@ != "Updating"@,
        "Updating:done"@ != "Fetching"@,
        "Updating:done"@ != "Initializing"@,
        "Updating:done"@ != "Fetching:done"@,
        "Updating:done"@ != "Updating"@,
{
    reveal_strlit("Fetching:done");
    reveal_strlit("Updating:done");
    reveal_strlit("Fetching");
    reveal_strlit("Initializing");
    reveal_strlit("Updating");
    assert("Fetching:done"@[0] != "Updating:done"@[0]);
    assert("Fetching:done"@.len() == 13);
    assert("Updating:done"@.len() == 13);
}

/// The first line about configuration files names them.
proof fn lemma_rendered_head(files: Seq<Seq<Part>>)
    ensures
        log::rendered(files).len() > 0,
        log::rendered(files)[0].len() >= 6,
{
    reveal_strlit("Config ");
}

impl ProgressManager {
    fn fetch_progress_place(&self) -> (place: Place)
        requires
            self.wf(),
        ensures
            place@ == model::fetch_progress_spot(self@),
    {
        if self.progress_bars.contains_key(CACHE_FETCH_DONE_ID) {
            Place::After(named(CACHE_FETCH_DONE_ID))
        } else if self.progress_bars.contains_key(CACHE_FETCH_STAGE_ID) {
            Place::After(named(CACHE_FETCH_STAGE_ID))
        } else if self.updating_bar.is_some() {
            Place::After(BarRef::Updating)
        } else {
            Place::End
        }
    }

    fn graphql_place(&self) -> (place: Place)
        requires
            self.wf(),
        ensures
            place@ == model::graphql_spot(self@),
    {
        if self.updating_bar.is_some() {
            Place::Before(BarRef::Updating)
        } else if self.progress_bars.contains_key(CACHE_FETCH_STAGE_ID) {
            Place::Before(named(CACHE_FETCH_STAGE_ID))
        } else if self.progress_bars.contains_key(CACHE_FETCH_PROGRESS_ID) {
            Place::Before(named(CACHE_FETCH_PROGRESS_ID))
        } else {
            Place::End
        }
    }

    fn fetch_stage_place(&self) -> (place: Place)
        requires
            self.wf(),
        ensures
            place@ == model::fetch_stage_spot(self@),
    {
        if self.updating_bar.is_some() {
            Place::After(BarRef::Updating)
        } else if self.progress_bars.contains_key(CACHE_FETCH_DONE_ID) {
            Place::Before(named(CACHE_FETCH_DONE_ID))
        } else if self.progress_bars.contains_key(CACHE_FETCH_PROGRESS_ID) {
            Place::Before(named(CACHE_FETCH_PROGRESS_ID))
        } else {
            Place::End
        }
    }

    fn fetch_done_place(&self) -> (place: Place)
        requires
            self.wf(),
        ensures
            place@ == model::fetch_done_spot(self@),
    {
        if self.progress_bars.contains_key(CACHE_FETCH_STAGE_ID) {
            Place::After(named(CACHE_FETCH_STAGE_ID))
        } else if self.updating_bar.is_some() {
            Place::After(BarRef::Updating)
        } else if self.progress_bars.contains_key(CACHE_FETCH_PROGRESS_ID) {
            Place::Before(named(CACHE_FETCH_PROGRESS_ID))
        } else {
            Place::End
        }
    }

    fn stage_ready(&mut self)
        requires
            old(self).wf(),
        ensures
            final(self).wf(),
            final(self)@ == model::stage_ready(old(self)@),
    {
        if !self.progress_bars.contains_key(CACHE_FETCH_STAGE_ID) {
            let place = self.fetch_stage_place();
            self.add_bar(
                named(CACHE_FETCH_STAGE_ID),
                place,
                Shape::Spinner,
                Look::SpinnerMid,
                "Fetching",
                Some(100),
            );
            self.register_child(ChildKey::FetchStage);
        }
    }

    /// A repository is fetched.
    fn ensure_fetch_stage(&mut self, stage: &str, url: &str)
        requires
            old(self).wf(),
        ensures
            final(self).wf(),
            final(self)@ == model::on_stage(old(self)@, stage@, url@),
    {
        self.cache_fetching.insert(url);
        self.stage_ready();
        self.fetch_stage_is_blank = false;
        self.emit(UiOp::Prefix(named(CACHE_FETCH_STAGE_ID), one(Tone::Plain, stage)));
        if self.cache_fetching_current.is_none() || option_is(&self.cache_fetching_current, url) {
            self.say(&named(CACHE_FETCH_STAGE_ID), one(Tone::Plain, url));
            self.cache_fetching_current = Some(url.to_owned());
        }
        self.refresh_connectors();
    }

    fn note_ready(&mut self)
        requires
            old(self).wf(),
        ensures
            final(self).wf(),
            final(self)@ == model::note_ready(old(self)@),
    {
        if !self.progress_bars.contains_key(CACHE_FETCH_DONE_ID) {
            let place = self.fetch_done_place();
            self.add_bar(
                named(CACHE_FETCH_DONE_ID),
                place,
                Shape::Spinner,
                Look::NoteMid,
                "fetched",
                None,
            );
            self.register_child(ChildKey::FetchDone);
        }
    }

    fn note(&mut self, url: &str)
        requires
            old(self).wf(),
        ensures
            final(self).wf(),
            final(self)@ == model::noted(old(self)@, url@),
            final(self)@.fetching_urls == old(self)@.fetching_urls,
    {
        let ghost start = self@;
        self.note_ready();
        proof {
            lemma_note_ready(start);
        }
        self.say(&named(CACHE_FETCH_DONE_ID), one(Tone::DimItalic, url));
        self.cache_fetch_done_url = Some(url.to_owned());
        self.fetch_done_is_blank = false;
        self.fetch_done_idle_gen = next_gen(self.fetch_done_idle_gen);
        let idle_gen: u64 = self.fetch_done_idle_gen;
        self.emit(UiOp::Timer(idle_gen));
    }

    /// A repository is fetched no more.
    fn mark_fetch_done(&mut self, url: &str) -> (next: Ghost<Seq<char>>)
        requires
            old(self).wf(),
        ensures
            final(self).wf(),
            final(self)@ == model::on_fetched(old(self)@, url@, next@),
            old(self)@.fetching_urls.remove(url@) != names::no_members() ==> old(
                self,
            )@.fetching_urls.remove(url@).contains(next@),
    {
        self.note(url);
        let ghost shown = self@;
        self.cache_fetching.remove(url);
        let found = self.cache_fetching.any();
        let ghost next: Seq<char> = if found is Some {
            found->0@
        } else {
            Seq::empty()
        };
        match found {
            None => {
                self.fetch_stage_is_blank = true;
                self.cache_fetching_current = None;
                self.forget(CACHE_FETCH_STAGE_ID);
            },
            Some(name) => {
                assert(self@.fetching_urls != names::no_members()) by {
                    assert(self@.fetching_urls.contains(name@));
                }
                if option_is(&self.cache_fetching_current, url) {
                    let message = one(Tone::Plain, name.as_str());
                    self.cache_fetching_current = Some(name);
                    self.say(&named(CACHE_FETCH_STAGE_ID), message);
                }
            },
        }
        self.refresh_connectors();
        Ghost(next)
    }

    fn clear_branch(&mut self, key: ChildKey, name: &str)
        requires
            old(self).wf(),
        ensures
            final(self).wf(),
            final(self)@ == model::branch_cleared(old(self)@, key@, name@),
    {
        if self.progress_bars.contains_key(name) {
            self.clear_bar(name);
            self.unregister_child(&key);
        }
    }

    /// Nothing is fetched.
    fn clear_fetch_stage(&mut self)
        requires
            old(self).wf(),
        ensures
            final(self).wf(),
            final(self)@ == model::stage_cleared(old(self)@),
    {
        self.clear_branch(ChildKey::FetchStage, CACHE_FETCH_STAGE_ID);
        self.clear_branch(ChildKey::FetchDone, CACHE_FETCH_DONE_ID);
        self.cache_fetching = NameSet::new();
        self.cache_fetching_current = None;
        self.cache_fetch_done_url = None;
        self.fetch_stage_is_blank = false;
        self.fetch_done_is_blank = false;
        self.fetch_done_idle_gen = next_gen(self.fetch_done_idle_gen);
    }

    fn updating_ready(&mut self)
        requires
            old(self).wf(),
        ensures
            final(self).wf(),
            final(self)@ == model::updating_ready(old(self)@),
    {
        if self.updating_bar.is_none() {
            self.add_bar(
                BarRef::Updating,
                Place::End,
                Shape::Spinner,
                Look::SpinnerMid,
                "Updating",
                Some(100),
            );
        }
    }

    /// The revision of a repository is looked up.
    fn mark_update(&mut self, url: &str)
        requires
            old(self).wf(),
        ensures
            final(self).wf(),
            final(self)@ == model::on_update(old(self)@, url@),
    {
        let existed = self.updating_bar.is_some();
        self.updating_ready();
        self.cache_updating_fetching.insert(url);
        if self.cache_updating_current.is_none() {
            self.cache_updating_current = Some(url.to_owned());
            self.say(&BarRef::Updating, one(Tone::Plain, url));
        }
        if !existed {
            self.register_child(ChildKey::Updating);
        }
    }

    /// The revision of a repository is known.
    fn mark_updated(&mut self, url: &str) -> (next: Ghost<Seq<char>>)
        requires
            old(self).wf(),
        ensures
            final(self).wf(),
            final(self)@ == model::on_updated(old(self)@, url@, next@),
            old(self)@.updating_urls.remove(url@) != names::no_members() ==> old(
                self,
            )@.updating_urls.remove(url@).contains(next@),
    {
        let existed = self.updating_bar.is_some();
        self.updating_ready();
        self.cache_updating_fetching.remove(url);
        let found = self.cache_updating_fetching.any();
        let ghost next: Seq<char> = if found is Some {
            found->0@
        } else {
            Seq::empty()
        };
        match found {
            None => {
                self.say(&BarRef::Updating, one(Tone::Plain, url));
                self.cache_updating_current = None;
            },
            Some(name) => {
                assert(self@.updating_urls != names::no_members()) by {
                    assert(self@.updating_urls.contains(name@));
                }
                if self.cache_updating_current.is_none() || option_is(
                    &self.cache_updating_current,
                    url,
                ) {
                    let message = one(Tone::Plain, name.as_str());
                    self.cache_updating_current = Some(name);
                    self.say(&BarRef::Updating, message);
                }
            },
        }
        if !existed {
            self.register_child(ChildKey::Updating);
        }
        Ghost(next)
    }

    fn line_ready(&mut self, name: &str, prefix: &str)
        requires
            old(self).wf(),
        ensures
            final(self).wf(),
            final(self)@ == model::line_ready(old(self)@, name@, prefix@),
    {
        if !self.progress_bars.contains_key(name) {
            self.add_bar(named(name), Place::End, Shape::NoLength, Look::Plain, prefix, None);
        }
    }

    /// A repository is in a stage of its acquisition.
    fn mark_stage(&mut self, stage: &str, url: &str) -> (next: Ghost<Seq<char>>)
        requires
            old(self).wf(),
        ensures
            final(self).wf(),
            final(self)@ == model::on_cache(old(self)@, stage@, url@, next@),
            stage@ == "Fetching:done"@ && old(self)@.fetching_urls.remove(url@)
                != names::no_members() ==> old(self)@.fetching_urls.remove(url@).contains(next@),
            stage@ == "Updating:done"@ && old(self)@.updating_urls.remove(url@)
                != names::no_members() ==> old(self)@.updating_urls.remove(url@).contains(next@),
    {
        proof {
            lemma_stages_differ();
        }
        if text::same(stage, "Fetching") || text::same(stage, "Initializing") {
            self.ensure_fetch_stage(stage, url);
            Ghost(Seq::empty())
        } else if text::same(stage, "Fetching:done") {
            self.mark_fetch_done(url)
        } else if text::same(stage, "Updating") {
            self.mark_update(url);
            Ghost(Seq::empty())
        } else if text::same(stage, "Updating:done") {
            self.mark_updated(url)
        } else {
            self.line_ready(stage, stage);
            self.say(&named(stage), one(Tone::Plain, url));
            Ghost(Seq::empty())
        }
    }

    fn objects_ready(&mut self)
        requires
            old(self).wf(),
        ensures
            final(self).wf(),
            final(self)@ == model::objects_ready(old(self)@),
            final(self)@.bars.contains_key(CACHE_FETCH_PROGRESS_ID@),
    {
        if !self.progress_bars.contains_key(CACHE_FETCH_PROGRESS_ID) {
            let place = self.fetch_progress_place();
            self.add_bar(
                named(CACHE_FETCH_PROGRESS_ID),
                place,
                Shape::Length(0),
                Look::BarLast,
                "Objects",
                Some(100),
            );
            let ghost shown = self@;
            self.register_child(ChildKey::FetchProgress);
            proof {
                lemma_registered(shown, Child::FetchProgress);
            }
        }
    }

    fn set_title(&mut self, value: Option<u8>)
        requires
            old(self).wf(),
        ensures
            final(self).wf(),
            final(self)@ == model::titled(old(self)@, value),
    {
        self.titled = true;
        self.emit(UiOp::Title(value));
    }

    fn clear_title(&mut self)
        requires
            old(self).wf(),
        ensures
            final(self).wf(),
            final(self)@ == model::untitled(old(self)@),
    {
        if self.titled {
            self.titled = false;
            self.emit(UiOp::ClearTitle);
        }
    }

    /// Objects of a repository are received.
    fn receive_objects(&mut self, id: &str, total: usize, received: usize)
        requires
            old(self).wf(),
        ensures
            final(self).wf(),
            final(self)@ == model::on_objects(old(self)@, id@, total, received),
    {
        self.objects_ready();
        let before: (usize, usize) = self.cachefetching_oids.get(id);
        let length: u64 = more(total, before.0);
        let position: u64 = more(received, before.1);
        let bar = match self.progress_bars.get(CACHE_FETCH_PROGRESS_ID) {
            Some(bar) => advance(bar, length, position),
            None => BarState::new(Shape::Spinner),
        };
        let value: Option<u8> = percent(&bar);
        self.set_bar(&named(CACHE_FETCH_PROGRESS_ID), bar);
        self.emit(UiOp::IncLength(named(CACHE_FETCH_PROGRESS_ID), length));
        self.emit(UiOp::Inc(named(CACHE_FETCH_PROGRESS_ID), position));
        self.cachefetching_oids.insert(id, (total, received));
        self.set_title(value);
    }

    /// A build shows a line, given its prefix.
    pub(crate) fn show_build(&mut self, id: &str, stdtype: usize, shown: &str, prefix: &str)
        requires
            old(self).wf(),
        ensures
            final(self).wf(),
            final(self)@ == model::build_shown(old(self)@, id@, stdtype, shown@, prefix@),
    {
        let existed = self.progress_bars.contains_key(id);
        if !existed {
            self.add_bar(named(id), Place::End, Shape::Spinner, Look::SpinnerMid, prefix, Some(100));
        }
        let mut message = one(
            Tone::Dim,
            text::decimal(stdtype).concat(">").as_str(),
        );
        push_span(&mut message, Tone::Plain, String::from_str(" ").concat(shown).as_str());
        assert(progress::spans(message@) =~= seq![
            (Tone::Dim, text::decimal_text(stdtype as nat) + ">"@),
            (Tone::Plain, " "@ + shown@),
        ]);
        self.say(&named(id), message);
        self.emit(UiOp::Prefix(named(id), one(Tone::Plain, prefix)));
        if !existed {
            self.register_child(ChildKey::Building(id.to_owned()));
        }
    }

    /// A build has written a line.
    fn receive_build_line(&mut self, id: &str, stdtype: usize, line: &str)
        requires
            old(self).wf(),
        ensures
            final(self).wf(),
            final(self)@ == model::on_build_line(old(self)@, id@, stdtype, line@),
    {
        if let Some(shown) = log::sanitize_build_line(line) {
            let prefix = build_prefix(id);
            self.show_build(id, stdtype, shown.as_str(), prefix.as_str());
        }
    }

    fn sum_up(&mut self, name: &str, prefix: Vec<Span>, message: &str)
        requires
            old(self).wf(),
        ensures
            final(self).wf(),
            final(self)@ == model::summed_up(
                old(self)@,
                name@,
                progress::spans(prefix@),
                message@,
            ),
    {
        let _ = self.progress_bars.remove(name);
        self.emit(UiOp::Style(named(name), Look::Summary));
        self.emit(UiOp::Prefix(named(name), prefix));
        self.emit(UiOp::Finish(named(name), one(Tone::Plain, message)));
    }

    /// A build is over.
    fn end_build(&mut self, id: &str, success: bool)
        requires
            old(self).wf(),
        ensures
            final(self).wf(),
            final(self)@ == model::on_build_end(old(self)@, id@, success),
    {
        if self.progress_bars.contains_key(id) {
            let mut message = String::from_str("[");
            message.append(id);
            if success {
                message.append("]");
            } else {
                message.append("] failed");
            }
            self.sum_up(id, summary_prefix("Build", success), message.as_str());
        }
        self.unregister_child(&ChildKey::Building(id.to_owned()));
    }

    /// Loading begins.
    fn begin_load(&mut self, total: usize)
        requires
            old(self).wf(),
        ensures
            final(self).wf(),
            final(self)@ == model::on_load_begin(old(self)@, total),
    {
        self.add_bar(
            named(LOADING),
            Place::End,
            Shape::Length(total as u64),
            Look::Loading,
            "Loading",
            Some(120),
        );
        let n: usize = self.loading_running_count;
        self.loading_running = Some(n);
        self.emit(UiOp::Running(n));
        self.set_title(None);
    }

    fn count_running(&mut self, n: usize)
        requires
            old(self).wf(),
        ensures
            final(self).wf(),
            final(self)@ == model::counted(old(self)@, n),
    {
        self.loading_running_count = n;
        if self.loading_running.is_some() {
            self.loading_running = Some(n);
            self.emit(UiOp::Running(n));
        }
    }

    fn plugin_running(&mut self)
        requires
            old(self).wf(),
        ensures
            final(self).wf(),
            final(self)@ == model::on_running(old(self)@),
    {
        let n: usize = if self.loading_running_count == usize::MAX {
            usize::MAX
        } else {
            self.loading_running_count + 1
        };
        self.count_running(n);
    }

    fn plugin_running_done(&mut self)
        requires
            old(self).wf(),
        ensures
            final(self).wf(),
            final(self)@ == model::on_running_done(old(self)@),
    {
        let n: usize = if self.loading_running_count == 0 {
            0
        } else {
            self.loading_running_count - 1
        };
        self.count_running(n);
    }

    fn plugin_done(&mut self)
        requires
            old(self).wf(),
        ensures
            final(self).wf(),
            final(self)@ == model::on_plugin_done(old(self)@),
    {
        let bar = match self.progress_bars.get(LOADING) {
            Some(bar) => Some(advance(bar, 0, 1)),
            None => None,
        };
        if let Some(bar) = bar {
            self.set_bar(&named(LOADING), bar);
            self.emit(UiOp::Inc(named(LOADING), 1));
        }
    }

    /// The note was shown long enough.
    fn idle(&mut self, idle_gen: u64)
        requires
            old(self).wf(),
        ensures
            final(self).wf(),
            final(self)@ == model::on_idle(old(self)@, idle_gen),
    {
        if idle_gen == self.fetch_done_idle_gen {
            self.forget(CACHE_FETCH_DONE_ID);
            self.fetch_done_is_blank = true;
            self.refresh_connectors();
        }
    }

    fn clear_objects(&mut self)
        requires
            old(self).wf(),
        ensures
            final(self).wf(),
            final(self)@ == model::objects_cleared(old(self)@),
    {
        if self.progress_bars.contains_key(CACHE_FETCH_PROGRESS_ID) {
            let _ = self.progress_bars.remove(CACHE_FETCH_PROGRESS_ID);
            self.emit(UiOp::Style(named(CACHE_FETCH_PROGRESS_ID), Look::Plain));
            self.emit(UiOp::Clear(named(CACHE_FETCH_PROGRESS_ID)));
        }
    }

    fn clear_updating(&mut self)
        requires
            old(self).wf(),
        ensures
            final(self).wf(),
            final(self)@ == model::updating_cleared(old(self)@),
    {
        if self.updating_bar.is_some() {
            self.updating_bar = None;
            self.emit(UiOp::Clear(BarRef::Updating));
            self.unregister_child(&ChildKey::Updating);
        }
    }

    fn end_bars(&mut self, bars: &BarTable)
        requires
            old(self).wf(),
            bars.wf(),
        ensures
            final(self).wf(),
            final(self)@ == model::all_ended(old(self)@, table::names_of(bars@), bars@),
    {
        let ghost start = self@;
        let list = bars.names();
        let ghost all = text::strings(list@);
        let mut i: usize = 0;
        assert(all.take(0) =~= Seq::<Seq<char>>::empty());
        while i < list.len()
            invariant
                i <= list@.len(),
                all == text::strings(list@),
                all == table::names_of(bars@),
                forall|name: Seq<char>| #[trigger] all.contains(name) <==> bars@.contains_key(name),
                bars.wf(),
                self.wf(),
                self@ == model::all_ended(start, all.take(i as int), bars@),
            decreases list@.len() - i,
        {
            let name = &list[i];
            proof {
                assert(all.take(i as int + 1).drop_last() =~= all.take(i as int));
                assert(all.take(i as int + 1).last() == name@);
                assert(all[i as int] == name@);
                assert(all.contains(name@));
            }
            if text::same(name.as_str(), LOADING) {
                if let Some(bar) = bars.get(name.as_str()) {
                    self.progress_bars.insert(name.as_str(), bar.duplicate());
                }
                self.emit(UiOp::StopTick(named(name.as_str())));
            } else {
                self.emit(UiOp::Clear(named(name.as_str())));
            }
            i = i + 1;
        }
        assert(all.take(i as int) =~= all);
    }

    /// Loading is over.
    fn end_load(&mut self)
        requires
            old(self).wf(),
        ensures
            final(self).wf(),
            final(self)@ == model::on_load_done(old(self)@),
    {
        self.clear_fetch_stage();
        self.clear_title();
        self.loading_running = None;
        self.loading_running_count = 0;
        self.clear_objects();
        let mut bars = BarTable::new();
        std::mem::swap(&mut bars, &mut self.progress_bars);
        self.clear_updating();
        self.end_bars(&bars);
        self.child_order = Vec::new();
        assert(progress::children(self.child_order@) =~= Seq::<Child>::empty());
    }

    /// Plugins are merged.
    fn end_merge(&mut self, total: usize, merged: usize)
        requires
            old(self).wf(),
        ensures
            final(self).wf(),
            final(self)@ == model::on_merged(old(self)@, total, merged),
    {
        self.clear_bar(LOADING);
        if self.not_installed.len() > 0 {
            let block = warning(
                &self.not_installed,
                " plugins not installed (run with -i to install)",
            );
            self.print(block);
        }
        if self.updated_plugins.len() > 0 {
            let block = plugin_block("Updated", &self.updated_plugins);
            self.print(block);
        }
        if self.installed_plugins.len() > 0 {
            let block = plugin_block("Installed", &self.installed_plugins);
            self.print(block);
        }
        self.print(loaded_line(total, merged));
    }

    /// A configuration file was found.
    fn find_config(&mut self, p: Path)
        requires
            old(self).wf(),
            old(self)@.bars.contains_key(CONFIG_FILES@),
        ensures
            final(self).wf(),
            final(self)@ == model::on_config_found(old(self)@, p@),
    {
        let ghost before = self.config_files@;
        let name = p.to_text();
        self.config_files.push(p);
        assert(log::path_views(self.config_files@) =~= log::path_views(before).push(p@));
        let mut message = one(
            Tone::Plain,
            text::decimal(self.config_files.len()).concat(" files: ").as_str(),
        );
        push_span(&mut message, Tone::Dim, name.as_str());
        assert(progress::spans(message@) =~= seq![
            (Tone::Plain, text::decimal_text(before.len() + 1) + " files: "@),
            (Tone::Dim, crate::path::path_text(p@)),
        ]);
        self.say(&named(CONFIG_FILES), message);
    }

    fn print_config(&mut self, lines: &Vec<String>)
        requires
            old(self).wf(),
            lines@.len() > 0 ==> lines@[0]@.len() >= 6,
        ensures
            final(self).wf(),
            final(self)@ == model::config_printed(old(self)@, text::strings(lines@)),
    {
        let ghost start = self@;
        let ghost all = text::strings(lines@);
        let mut i: usize = 0;
        assert(all.take(0) =~= Seq::<Seq<char>>::empty());
        while i < lines.len()
            invariant
                i <= lines@.len(),
                all == text::strings(lines@),
                lines@.len() > 0 ==> lines@[0]@.len() >= 6,
                self.wf(),
                self@ == model::config_printed(start, all.take(i as int)),
            decreases lines@.len() - i,
        {
            let line = &lines[i];
            proof {
                assert(all.take(i as int + 1).drop_last() =~= all.take(i as int));
                assert(all.take(i as int + 1).last() == line@);
            }
            if i == 0 {
                let chars = text::chars_of(line.as_str());
                let head = text::text_between(&chars, 0, 6);
                let tail = text::text_between(&chars, 6, chars.len());
                assert(head@ =~= line@.take(6));
                assert(tail@ =~= line@.skip(6));
                let mut block = one(Tone::DimBlue, head.as_str());
                push_span(&mut block, Tone::Plain, tail.as_str());
                assert(progress::spans(block@) =~= model::config_line(line@, true));
                self.print(block);
            } else {
                self.print(one(Tone::Dim, line.as_str()));
            }
            i = i + 1;
        }
        assert(all.take(i as int) =~= all);
    }

    /// All configuration files are found.
    fn end_config(&mut self)
        requires
            old(self).wf(),
            old(self)@.bars.contains_key(CONFIG_FILES@),
        ensures
            final(self).wf(),
            final(self)@ == model::on_config_end(old(self)@),
    {
        let ghost files = self@.config_files;
        let message = text::decimal(self.config_files.len()).concat(" files");
        self.say(&named(CONFIG_FILES), one(Tone::Plain, message.as_str()));
        self.clear_bar(CONFIG_FILES);
        let mut given: Vec<Path> = Vec::new();
        std::mem::swap(&mut given, &mut self.config_files);
        assert(log::path_views(self.config_files@) =~= Seq::<Seq<Part>>::empty());
        let list = ConfigList::from_files(given);
        proof {
            let sorted = log::path_views(list.files@);
            let chosen = model::sorted_list(files);
            assert(model::is_sorted_list(sorted, files));
            assert(model::is_sorted_list(chosen, files));
            order::lemma_sorted_unique::<Path>(sorted, chosen);
        }
        let lines = list.render_lines();
        proof {
            lemma_rendered_head(log::path_views(list.files@));
            assert(text::strings(lines@)[0] == lines@[0]@);
        }
        self.print_config(&lines);
    }

    fn graphql_ready(&mut self, total: usize)
        requires
            old(self).wf(),
        ensures
            final(self).wf(),
            final(self)@ == (if old(self)@.bars.contains_key(GRAPHQL_PROGRESS_ID@) {
                old(self)@
            } else {
                model::registered(
                    model::added(
                        old(self)@,
                        At::Named(GRAPHQL_PROGRESS_ID@),
                        model::graphql_spot(old(self)@),
                        Shape::Length(total as u64),
                        Look::BarLast,
                        "Resolving"@,
                        None,
                    ),
                    Child::GraphQLResolve,
                )
            }),
            final(self)@.bars.contains_key(GRAPHQL_PROGRESS_ID@),
    {
        if !self.progress_bars.contains_key(GRAPHQL_PROGRESS_ID) {
            let place = self.graphql_place();
            self.add_bar(
                named(GRAPHQL_PROGRESS_ID),
                place,
                Shape::Length(total as u64),
                Look::BarLast,
                "Resolving",
                None,
            );
            let ghost shown = self@;
            self.register_child(ChildKey::GraphQLResolve);
            proof {
                lemma_registered(shown, Child::GraphQLResolve);
            }
        }
    }

    /// Revisions are resolved.
    fn resolve(&mut self, resolved: usize, total: usize)
        requires
            old(self).wf(),
        ensures
            final(self).wf(),
            final(self)@ == model::on_resolved(old(self)@, resolved, total),
    {
        if total == 0 {
            return ;
        }
        self.graphql_ready(total);
        let ghost ready = self@;
        let last_message = match self.progress_bars.get(GRAPHQL_PROGRESS_ID) {
            Some(bar) => bar.duplicate().last_message,
            None => None,
        };
        let bar = BarState {
            last_message,
            position: resolved as u64,
            length: Some(total as u64),
        };
        assert(bar@ == (Bar {
            length: Some(total as u64),
            position: resolved as u64,
            ..ready.bars[GRAPHQL_PROGRESS_ID@]
        }));
        self.set_bar(&named(GRAPHQL_PROGRESS_ID), bar);
        self.emit(UiOp::Length(named(GRAPHQL_PROGRESS_ID), total as u64));
        self.emit(UiOp::Position(named(GRAPHQL_PROGRESS_ID), resolved as u64));
        if resolved >= total {
            self.clear_bar(GRAPHQL_PROGRESS_ID);
            self.unregister_child(&ChildKey::GraphQLResolve);
        }
    }

    /// A package is there already.
    fn skip_install(&mut self, id: &str)
        requires
            old(self).wf(),
            old(self)@.skipped < usize::MAX,
        ensures
            final(self).wf(),
            final(self)@ == model::on_skipped(old(self)@, id@),
    {
        self.installskipped_count = self.installskipped_count + 1;
        self.line_ready(INSTALL_SKIPPED, "Up to date");
        self.say(&named(INSTALL_SKIPPED), one(Tone::DimItalic, id));
    }

    /// A file is copied.
    fn yank(&mut self, id: &str, file: &Path)
        requires
            old(self).wf(),
            old(self)@.yanked < usize::MAX,
        ensures
            final(self).wf(),
            final(self)@ == model::on_yank(old(self)@, id@, file@),
    {
        self.yankfile_count = self.yankfile_count + 1;
        self.set_title(None);
        self.line_ready(INSTALL_YANK, "Copying");
        let mut message = one(Tone::Plain, "in ");
        push_span(&mut message, Tone::DimItalic, id);
        let name = String::from_str(": ").concat(file.to_text().as_str());
        push_span(&mut message, Tone::Plain, name.as_str());
        assert(progress::spans(message@) =~= seq![
            (Tone::Plain, "in "@),
            (Tone::DimItalic, id@),
            (Tone::Plain, ": "@ + crate::path::path_text(file@)),
        ]);
        self.say(&named(INSTALL_YANK), message);
    }

    /// Help tags are generated.
    fn help(&mut self, dir: &Path)
        requires
            old(self).wf(),
        ensures
            final(self).wf(),
            final(self)@ == model::on_help(old(self)@, dir@),
    {
        self.line_ready(INSTALL_YANK, ":helptags");
        self.say(&named(INSTALL_YANK), one(Tone::Plain, dir.to_text().as_str()));
    }

    fn total_up(&mut self, name: &str, n: usize, label: &str, unit: &str)
        requires
            old(self).wf(),
        ensures
            final(self).wf(),
            final(self)@ == model::totalled(old(self)@, name@, n, label@, unit@),
    {
        if !self.progress_bars.contains_key(name) {
            return ;
        }
        if n != 0 {
            let message = text::decimal(n).concat(unit);
            self.sum_up(name, summary_prefix(label, true), message.as_str());
        } else {
            let _ = self.progress_bars.remove(name);
            self.emit(UiOp::Style(named(name), Look::Summary));
            self.emit(UiOp::Clear(named(name)));
        }
    }

    /// The installation is over.
    fn end_install(&mut self)
        requires
            old(self).wf(),
        ensures
            final(self).wf(),
            final(self)@ == model::on_install_done(old(self)@),
    {
        self.clear_title();
        let skipped: usize = self.installskipped_count;
        let yanked: usize = self.yankfile_count;
        self.total_up(INSTALL_SKIPPED, skipped, "Up to date", " packages");
        self.total_up(INSTALL_YANK, yanked, "Copied", " files");
        if self.dotgit_missing.len() > 0 {
            let block = warning(
                &self.dotgit_missing,
                " dotgit plugins missing `.git` (run with -u to refresh)",
            );
            self.print(block);
        }
    }

    fn print_lock(&mut self, p: &Path)
        requires
            old(self).wf(),
        ensures
            final(self).wf(),
            final(self)@ == model::emit(
                old(self)@,
                Op::Print(
                    model::summary_prefix("Lockfile"@, true).push((Tone::Plain, " "@)).push(
                        (Tone::Dim, crate::path::path_text(p@)),
                    ),
                ),
            ),
    {
        let mut block = summary_prefix("Lockfile", true);
        push_span(&mut block, Tone::Plain, " ");
        push_span(&mut block, Tone::Dim, p.to_text().as_str());
        self.print(block);
    }

    fn print_batch_failure(&mut self, reason: &str)
        requires
            old(self).wf(),
        ensures
            final(self).wf(),
            final(self)@ == model::emit(
                old(self)@,
                Op::Print(
                    model::summary_prefix("GraphQL"@, false).push(
                        (
                            Tone::Plain,
                            " batch failed ("@ + reason@
                                + "); falling back to per-repo resolution"@,
                        ),
                    ),
                ),
            ),
    {
        let mut message = String::from_str(" batch failed (");
        message.append(reason);
        message.append("); falling back to per-repo resolution");
        let mut block = summary_prefix("GraphQL", false);
        push_span(&mut block, Tone::Plain, message.as_str());
        self.print(block);
    }

    fn process_rest(&mut self, msg: Message)
        requires
            old(self).wf(),
            model::can_come(old(self)@, msg),
            !(msg is Cache),
        ensures
            final(self).wf(),
            forall|next: Seq<char>| #[trigger]
                model::processed(old(self)@, msg, next) == final(self)@,
    {
        match msg {
            Message::ConfigFound(p) => self.find_config(p),
            Message::ConfigWalkFinish => self.end_config(),
            Message::Cache(_, _) => {},
            Message::CacheFetchObjectsProgress { id, total_objs_count, received_objs_count } => {
                self.receive_objects(id.as_str(), total_objs_count, received_objs_count)
            },
            Message::CacheBuildProgress { id, stdtype, line } => {
                self.receive_build_line(id.as_str(), stdtype, line.as_str())
            },
            Message::CacheBuildFinished { id, success } => self.end_build(id.as_str(), success),
            Message::LoadBegin { total } => self.begin_load(total),
            Message::LoadPluginDone => self.plugin_done(),
            Message::LoadPluginRunning => self.plugin_running(),
            Message::LoadPluginRunningDone => self.plugin_running_done(),
            Message::LoadDone => self.end_load(),
            Message::FetchDoneIdle { idle_gen } => self.idle(idle_gen),
            Message::PluginNotInstalled(id) => {
                let ghost before = self.not_installed@;
                self.not_installed.push(id);
                assert(text::strings(self.not_installed@) =~= text::strings(before).push(id@));
            },
            Message::PluginUpdated(id) => {
                let ghost before = self.updated_plugins@;
                self.updated_plugins.push(id);
                assert(text::strings(self.updated_plugins@) =~= text::strings(before).push(id@));
            },
            Message::PluginInstalled(id) => {
                let ghost before = self.installed_plugins@;
                self.installed_plugins.push(id);
                assert(text::strings(self.installed_plugins@) =~= text::strings(before).push(id@));
            },
            Message::PluginDotgitMissing(id) => {
                let ghost before = self.dotgit_missing@;
                self.dotgit_missing.push(id);
                assert(text::strings(self.dotgit_missing@) =~= text::strings(before).push(id@));
            },
            Message::MergeFinished { total, merged } => self.end_merge(total, merged),
            Message::DetectLockFile(p) => self.print_lock(&p),
            Message::GraphQLBatchFailed { reason } => self.print_batch_failure(reason.as_str()),
            Message::GraphQLResolveProgress { resolved, total } => self.resolve(resolved, total),
            Message::InstallSkipped(id) => self.skip_install(id.as_str()),
            Message::InstallYank { id, which } => self.yank(id.as_str(), &which),
            Message::InstallHelp { help_dir } => self.help(&help_dir),
            Message::InstallDone => self.end_install(),
            Message::Error(e) => self.emit(UiOp::Error(e)),
        }
    }

    /// Takes a message in.  Which repository is shown after the one that was shown is done is
    /// left open: it is one of the others.
    pub fn process(&mut self, msg: Message)
        requires
            old(self).wf(),
            model::can_come(old(self)@, msg),
        ensures
            final(self).wf(),
            exists|next: Seq<char>| #[trigger]
                model::is_next(old(self)@, msg, next) && final(self)@ == model::processed(
                    old(self)@,
                    msg,
                    next,
                ),
    {
        let ghost start = self@;
        match msg {
            Message::Cache(stage, url) => {
                let Ghost(next) = self.mark_stage(stage.as_str(), url.as_str());
                assert(model::is_next(start, Message::Cache(stage, url), next));
            },
            msg => {
                self.process_rest(msg);
                assert(model::is_next(start, msg, Seq::empty()));
                assert(self@ == model::processed(start, msg, Seq::empty()));
            },
        }
    }
}

} // verus!
