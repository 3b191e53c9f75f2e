//! The state of the progress and its parts.

use crate::log;
use crate::log::Message;
use crate::names;
use crate::names::NameSet;
use crate::path::Path;
use crate::progress;
use crate::progress::model;
use crate::progress::model::Ui;
use crate::progress::table::{BarTable, ObjectTable};
use crate::progress::{
    named, one, Bar, BarRef, BarState, Child, ChildKey, Look, Op, Place, Shape, Span, Tone, UiOp,
    CONFIG_FILES,
};
use crate::text;
use vstd::prelude::*;

verus! {

/// Keeps the progress, and says what to draw.
pub struct ProgressManager {
    pub progress_bars: BarTable,
    pub installskipped_count: usize,
    pub yankfile_count: usize,
    pub not_installed: Vec<String>,
    pub updated_plugins: Vec<String>,
    pub installed_plugins: Vec<String>,
    pub dotgit_missing: Vec<String>,
    pub cachefetching_oids: ObjectTable,
    pub cache_updating_fetching: NameSet,
    pub cache_updating_current: Option<String>,
    pub updating_bar: Option<BarState>,
    pub cache_fetching: NameSet,
    pub cache_fetching_current: Option<String>,
    pub cache_fetch_done_url: Option<String>,
    pub fetch_stage_is_blank: bool,
    pub fetch_done_is_blank: bool,
    pub fetch_done_idle_gen: u64,
    pub child_order: Vec<ChildKey>,
    pub config_files: Vec<Path>,
    pub titled: bool,
    pub loading_running: Option<usize>,
    pub loading_running_count: usize,
    pub ops: Vec<UiOp>,
}

/// What is known of an optional bar.
pub open spec fn optional_bar(bar: Option<BarState>) -> Option<Bar> {
    match bar {
        Some(bar) => Some(bar@),
        None => None,
    }
}

impl View for ProgressManager {
    type V = Ui;

    open spec fn view(&self) -> Ui {
        Ui {
            bars: self.progress_bars@,
            updating: optional_bar(self.updating_bar),
            skipped: self.installskipped_count,
            yanked: self.yankfile_count,
            not_installed: text::strings(self.not_installed@),
            updated: text::strings(self.updated_plugins@),
            installed: text::strings(self.installed_plugins@),
            dotgit_missing: text::strings(self.dotgit_missing@),
            objects: self.cachefetching_oids@,
            updating_urls: names::set_members(self.cache_updating_fetching),
            updating_current: text::optional_string(self.cache_updating_current),
            fetching_urls: names::set_members(self.cache_fetching),
            fetching_current: text::optional_string(self.cache_fetching_current),
            done_url: text::optional_string(self.cache_fetch_done_url),
            stage_blank: self.fetch_stage_is_blank,
            done_blank: self.fetch_done_is_blank,
            idle_gen: self.fetch_done_idle_gen,
            children: progress::children(self.child_order@),
            config_files: log::path_views(self.config_files@),
            title: self.titled,
            running: self.loading_running,
            running_count: self.loading_running_count,
            ops: progress::ops(self.ops@),
        }
    }
}

impl BarState {
    /// A new bar.
    pub fn new(shape: Shape) -> (bar: BarState)
        ensures
            bar@ == model::fresh_bar(shape),
    {
        BarState {
            last_message: None,
            position: 0,
            length: match shape {
                Shape::Length(n) => Some(n),
                _ => None,
            },
        }
    }

    /// The same bar again.
    pub(crate) fn duplicate(&self) -> (copy: BarState)
        ensures
            copy@ == self@,
    {
        BarState {
            last_message: match &self.last_message {
                Some(message) => Some(progress::duplicate_spans(message)),
                None => None,
            },
            position: self.position,
            length: self.length,
        }
    }
}

/// The order of the branches from top to bottom.
fn category_rank(key: &ChildKey) -> (rank: usize)
    ensures
        rank == model::category_rank(key@),
        rank < 6,
{
    match key {
        ChildKey::GraphQLResolve => 0,
        ChildKey::Updating => 1,
        ChildKey::FetchStage => 2,
        ChildKey::FetchDone => 3,
        ChildKey::FetchProgress => 4,
        ChildKey::Building(_) => 5,
    }
}

/// Drawing a tree again changes nothing else.
pub proof fn lemma_redrawn(ui: Ui, list: Seq<Child>, last: Option<Child>)
    ensures
        (Ui { ops: ui.ops, ..model::all_redrawn(ui, list, last) }) == ui,
    decreases list.len(),
{
    if list.len() > 0 {
        lemma_redrawn(ui, list.drop_last(), last);
    }
}

impl ProgressManager {
    /// The parts are sound.
    pub open spec fn wf(&self) -> bool {
        &&& self.progress_bars.wf()
        &&& self.cachefetching_oids.wf()
    }

    /// Only the configuration files are shown.
    pub fn new() -> (manager: ProgressManager)
        ensures
            manager.wf(),
            manager@ == model::started(),
    {
        let mut manager = ProgressManager {
            progress_bars: BarTable::new(),
            installskipped_count: 0,
            yankfile_count: 0,
            not_installed: Vec::new(),
            updated_plugins: Vec::new(),
            installed_plugins: Vec::new(),
            dotgit_missing: Vec::new(),
            cachefetching_oids: ObjectTable::new(),
            cache_updating_fetching: NameSet::new(),
            cache_updating_current: None,
            updating_bar: None,
            cache_fetching: NameSet::new(),
            cache_fetching_current: None,
            cache_fetch_done_url: None,
            fetch_stage_is_blank: false,
            fetch_done_is_blank: false,
            fetch_done_idle_gen: 0,
            child_order: Vec::new(),
            config_files: Vec::new(),
            titled: false,
            loading_running: None,
            loading_running_count: 0,
            ops: Vec::new(),
        };
        assert(manager@ =~= model::nothing_shown());
        let place = Place::End;
        manager.add_bar(
            named(CONFIG_FILES),
            place,
            Shape::NoLength,
            Look::Plain,
            "Config",
            None,
        );
        manager.say(&named(CONFIG_FILES), one(Tone::Plain, "0 files"));
        manager
    }

    /// What is left to do on the screen, which is then done.
    pub fn take_ops(&mut self) -> (list: Vec<UiOp>)
        requires
            old(self).wf(),
        ensures
            final(self).wf(),
            progress::ops(list@) == old(self)@.ops,
            final(self)@ == (Ui { ops: Seq::empty(), ..old(self)@ }),
    {
        let mut list: Vec<UiOp> = Vec::new();
        std::mem::swap(&mut list, &mut self.ops);
        assert(self@ =~= (Ui { ops: Seq::empty(), ..old(self)@ }));
        list
    }

    /// How many repositories are fetched.
    pub fn fetching_count(&self) -> (n: usize)
        ensures
            n == self@.fetching_urls.len(),
    {
        self.cache_fetching.len()
    }

    pub(crate) fn emit(&mut self, op: UiOp)
        requires
            old(self).wf(),
        ensures
            final(self).wf(),
            final(self)@ == model::emit(old(self)@, op@),
    {
        let ghost before = self.ops@;
        self.ops.push(op);
        assert(progress::ops(self.ops@) =~= progress::ops(before).push(op@));
    }

    pub(crate) fn has_bar(&self, at: &BarRef) -> (found: bool)
        requires
            self.wf(),
        ensures
            found == (model::bar_at(self@, at@) is Some),
    {
        match at {
            BarRef::Named(name) => self.progress_bars.contains_key(name.as_str()),
            BarRef::Updating => self.updating_bar.is_some(),
        }
    }

    pub(crate) fn set_bar(&mut self, at: &BarRef, bar: BarState)
        requires
            old(self).wf(),
        ensures
            final(self).wf(),
            final(self)@ == model::with_bar(old(self)@, at@, bar@),
    {
        match at {
            BarRef::Named(name) => {
                self.progress_bars.insert(name.as_str(), bar);
            },
            BarRef::Updating => {
                self.updating_bar = Some(bar);
            },
        }
    }

    fn bar(&self, at: &BarRef) -> (found: Option<&BarState>)
        requires
            self.wf(),
        ensures
            match found {
                Some(bar) => model::bar_at(self@, at@) == Some(bar@),
                None => model::bar_at(self@, at@) is None,
            },
    {
        match at {
            BarRef::Named(name) => self.progress_bars.get(name.as_str()),
            BarRef::Updating => self.updating_bar.as_ref(),
        }
    }

    /// Sets the message of a bar, unless it shows it already.
    pub(crate) fn say(&mut self, at: &BarRef, message: Vec<Span>)
        requires
            old(self).wf(),
        ensures
            final(self).wf(),
            final(self)@ == model::said(old(self)@, at@, progress::spans(message@)),
    {
        let ghost wanted = progress::spans(message@);
        let changed = match self.bar(at) {
            None => None,
            Some(bar) => match &bar.last_message {
                Some(last) => if progress::same_spans(last, &message) {
                    None
                } else {
                    Some((bar.position, bar.length))
                },
                None => Some((bar.position, bar.length)),
            },
        };
        if let Some((position, length)) = changed {
            let ghost bar = model::bar_at(self@, at@)->0;
            let next = BarState {
                last_message: Some(progress::duplicate_spans(&message)),
                position,
                length,
            };
            assert(next@ == (Bar { last: Some(wanted), ..bar }));
            self.set_bar(at, next);
            self.emit(UiOp::Message(at.duplicate(), message));
        }
    }

    /// Lets a bar forget its message.
    pub(crate) fn forget(&mut self, name: &str)
        requires
            old(self).wf(),
        ensures
            final(self).wf(),
            final(self)@ == model::forgotten(old(self)@, name@),
    {
        let known = match self.progress_bars.get(name) {
            Some(bar) => Some((bar.position, bar.length)),
            None => None,
        };
        if let Some((position, length)) = known {
            let ghost bar = self@.bars[name@];
            let next = BarState { last_message: None, position, length };
            assert(next@ == (Bar { last: None, ..bar }));
            self.progress_bars.insert(name, next);
        }
    }

    /// Adds a bar.
    pub(crate) fn add_bar(
        &mut self,
        bar: BarRef,
        place: Place,
        shape: Shape,
        look: Look,
        prefix: &str,
        tick: Option<u64>,
    )
        requires
            old(self).wf(),
        ensures
            final(self).wf(),
            final(self)@ == model::added(
                old(self)@,
                bar@,
                place@,
                shape,
                look,
                prefix@,
                tick,
            ),
    {
        self.set_bar(&bar, BarState::new(shape));
        self.emit(UiOp::Add { bar, place, shape, look, prefix: prefix.to_owned(), tick });
    }

    /// The branches from top to bottom.
    pub fn ordered_children(&self) -> (list: Vec<ChildKey>)
        ensures
            progress::children(list@) == model::ordered(self@.children),
    {
        let ghost all = self@.children;
        let mut list: Vec<ChildKey> = Vec::new();
        let mut rank: usize = 0;
        assert(progress::children(list@) =~= Seq::<Child>::empty());
        while rank < 6
            invariant
                rank <= 6,
                all == progress::children(self.child_order@),
                progress::children(list@) == model::ordered_below(all, rank as nat),
            decreases 6 - rank,
        {
            let ghost below = progress::children(list@);
            let ghost pick = model::has_rank(rank as int);
            let mut i: usize = 0;
            proof {
                reveal(Seq::filter);
                assert(all.take(0).filter(pick) =~= Seq::<Child>::empty());
                assert(below =~= below + all.take(0).filter(pick));
            }
            while i < self.child_order.len()
                invariant
                    i <= self.child_order@.len(),
                    all == progress::children(self.child_order@),
                    pick == model::has_rank(rank as int),
                    progress::children(list@) == below + all.take(i as int).filter(pick),
                decreases self.child_order@.len() - i,
            {
                let ghost so_far = list@;
                let key = &self.child_order[i];
                proof {
                    reveal(Seq::filter);
                    assert(all.take(i as int + 1).drop_last() =~= all.take(i as int));
                    assert(all.take(i as int + 1).last() == key@);
                }
                if category_rank(key) == rank {
                    list.push(key.duplicate());
                    proof {
                        assert(progress::children(list@) =~= progress::children(so_far).push(key@));
                        assert(pick(key@));
                        assert((below + all.take(i as int).filter(pick)).push(key@) =~= below
                            + all.take(i as int).filter(pick).push(key@));
                    }
                } else {
                    assert(!pick(key@));
                }
                i = i + 1;
            }
            assert(all.take(i as int) =~= all);
            rank = rank + 1;
        }
        list
    }

    fn look(&self, key: &ChildKey, is_last: bool, fetch_is_last: bool) -> (look: Look)
        ensures
            forall|last: Option<Child>|
                is_last == (last == Some(key@)) && fetch_is_last == (last == Some(
                    Child::FetchStage,
                )) ==> look == #[trigger] model::look_of(self@, key@, last),
    {
        match key {
            ChildKey::FetchStage => if self.fetch_stage_is_blank {
                if is_last {
                    Look::BlankLast
                } else {
                    Look::BlankMid
                }
            } else if is_last {
                Look::SpinnerLast
            } else {
                Look::SpinnerMid
            },
            ChildKey::FetchDone => if self.fetch_done_is_blank {
                if fetch_is_last {
                    Look::BlankLast
                } else {
                    Look::BlankMid
                }
            } else if fetch_is_last {
                Look::NoteLast
            } else {
                Look::NoteMid
            },
            ChildKey::GraphQLResolve => if is_last {
                Look::BarLast
            } else {
                Look::BarMid
            },
            ChildKey::FetchProgress => if is_last {
                Look::BarLast
            } else {
                Look::BarMid
            },
            ChildKey::Updating => if is_last {
                Look::SpinnerLast
            } else {
                Look::SpinnerMid
            },
            ChildKey::Building(_) => if is_last {
                Look::SpinnerLast
            } else {
                Look::SpinnerMid
            },
        }
    }

    /// Draws the tree again.
    pub(crate) fn refresh_connectors(&mut self)
        requires
            old(self).wf(),
        ensures
            final(self).wf(),
            final(self)@ == model::refreshed(old(self)@),
    {
        let ghost start = self@;
        let list = self.ordered_children();
        let ghost all = progress::children(list@);
        let last = last_branch(&list);
        let ghost last_child = model::last_branch(all);
        let fetch_is_last = match &last {
            Some(key) => key.same(&ChildKey::FetchStage),
            None => false,
        };
        let mut i: usize = 0;
        assert(all.take(0) =~= Seq::<Child>::empty());
        while i < list.len()
            invariant
                i <= list@.len(),
                all == progress::children(list@),
                fetch_is_last == (last_child == Some(Child::FetchStage)),
                optional_child(last) == last_child,
                self.wf(),
                self@ == model::all_redrawn(start, all.take(i as int), last_child),
            decreases list@.len() - i,
        {
            let key = &list[i];
            proof {
                assert(all.take(i as int + 1).drop_last() =~= all.take(i as int));
                assert(all.take(i as int + 1).last() == key@);
            }
            let is_last = match &last {
                Some(other) => key.same(other),
                None => false,
            };
            let at = key.bar();
            if self.has_bar(&at) {
                let look = self.look(key, is_last, fetch_is_last);
                assert(look == model::look_of(self@, key@, last_child));
                self.emit(UiOp::Redraw(at, look));
            }
            i = i + 1;
        }
        assert(all.take(i as int) =~= all);
    }

    /// Puts a branch on the tree.
    pub(crate) fn register_child(&mut self, key: ChildKey)
        requires
            old(self).wf(),
        ensures
            final(self).wf(),
            final(self)@ == model::registered(old(self)@, key@),
    {
        let ghost before = self.child_order@;
        let ghost all = progress::children(before);
        let mut found = false;
        let mut i: usize = 0;
        while i < self.child_order.len()
            invariant
                i <= self.child_order@.len(),
                all == progress::children(self.child_order@),
                found ==> all.contains(key@),
                !found ==> forall|k: int| 0 <= k < i ==> #[trigger] all[k] != key@,
            decreases self.child_order@.len() - i,
        {
            if self.child_order[i].same(&key) {
                assert(all[i as int] == key@);
                found = true;
            }
            i = i + 1;
        }
        if !found {
            self.child_order.push(key);
            proof {
                assert(!all.contains(key@));
                assert(progress::children(self.child_order@) =~= all.push(key@));
            }
        }
        self.refresh_connectors();
    }

    /// Takes a branch off the tree.
    pub(crate) fn unregister_child(&mut self, key: &ChildKey)
        requires
            old(self).wf(),
        ensures
            final(self).wf(),
            final(self)@ == model::unregistered(old(self)@, key@),
    {
        let ghost all = progress::children(self.child_order@);
        let ghost pick = model::other_child(key@);
        let mut kept: Vec<ChildKey> = Vec::new();
        let mut i: usize = 0;
        proof {
            reveal(Seq::filter);
            assert(all.take(0).filter(pick) =~= Seq::<Child>::empty());
            assert(progress::children(kept@) =~= Seq::<Child>::empty());
        }
        while i < self.child_order.len()
            invariant
                i <= self.child_order@.len(),
                all == progress::children(self.child_order@),
                pick == model::other_child(key@),
                progress::children(kept@) == all.take(i as int).filter(pick),
            decreases self.child_order@.len() - i,
        {
            let ghost so_far = kept@;
            let child = &self.child_order[i];
            proof {
                reveal(Seq::filter);
                assert(all.take(i as int + 1).drop_last() =~= all.take(i as int));
                assert(all.take(i as int + 1).last() == child@);
            }
            if !child.same(key) {
                kept.push(child.duplicate());
                proof {
                    assert(progress::children(kept@) =~= progress::children(so_far).push(child@));
                    assert(pick(child@));
                }
            } else {
                assert(!pick(child@));
            }
            i = i + 1;
        }
        assert(all.take(i as int) =~= all);
        self.child_order = kept;
        self.refresh_connectors();
    }

    pub(crate) fn print(&mut self, block: Vec<Span>)
        requires
            old(self).wf(),
        ensures
            final(self).wf(),
            final(self)@ == model::emit(old(self)@, Op::Print(progress::spans(block@))),
    {
        self.emit(UiOp::Print(block));
    }

    /// Takes a bar off the screen, if it is there.
    pub(crate) fn clear_bar(&mut self, name: &str)
        requires
            old(self).wf(),
        ensures
            final(self).wf(),
            final(self)@ == model::cleared_bar(old(self)@, name@),
    {
        if self.progress_bars.remove(name) {
            self.emit(UiOp::Clear(named(name)));
        } else {
            proof {
                assert(old(self)@.bars.remove(name@) =~= old(self)@.bars);
            }
        }
    }
}

/// A branch that may be missing.
pub open spec fn optional_child(c: Option<ChildKey>) -> Option<Child> {
    match c {
        Some(c) => Some(c@),
        None => None,
    }
}

/// The last branch that hangs on the tree itself.
pub fn last_branch(list: &Vec<ChildKey>) -> (last: Option<ChildKey>)
    ensures
        optional_child(last) == model::last_branch(progress::children(list@)),
{
    let ghost all = progress::children(list@);
    let mut i: usize = list.len();
    assert(all.take(i as int) =~= all);
    while i > 0
        invariant
            i <= list@.len(),
            all == progress::children(list@),
            model::last_branch(all.take(i as int)) == model::last_branch(all),
        decreases i,
    {
        let key = &list[i - 1];
        proof {
            assert(all.take(i as int).last() == key@);
            assert(all.take(i as int).drop_last() =~= all.take(i as int - 1));
        }
        if !key.same(&ChildKey::FetchDone) {
            return Some(key.duplicate());
        }
        i = i - 1;
    }
    None
}

} // verus!
