//! Plugin configuration.

use crate::dag::DagNode;
use crate::digest;
use crate::lazy_type;
use crate::lazy_type::{Event, KeyPattern, Lazy, LazyType, LoadEvent, ModeChar};
use crate::order;
use crate::order::{Key, SortedSet};
use crate::text;
use vstd::prelude::*;

pub mod laws;

verus! {

/// Where a plugin comes from.
#[derive(Debug)]
pub enum RepoSource {
    GitHub { owner: String, repo: String, rev: Option<String> },
    Git { url: String, rev: Option<String> },
}

/// How a plugin is fetched and built.
#[derive(Debug)]
pub struct CacheConfig {
    pub repo: Option<RepoSource>,
    /// Keep `.git` in the package.
    pub dotgit: bool,
    pub build: Vec<String>,
    pub lua_build: Option<String>,
    pub lua_post_update: Option<String>,
}

/// The setup scripts of one configuration entry.
#[derive(Debug)]
pub struct SetupScriptOne {
    pub lua_start: Option<String>,
    pub lua_after: Option<String>,
    pub lua_before: Option<String>,
}

/// The setup scripts of a plugin.
pub struct SetupScript {
    /// Run when the editor starts.
    pub lua_start: SortedSet<String>,
    /// Run right after the plugin is loaded.
    pub lua_after: SortedSet<String>,
    /// Run right before the plugin is loaded.
    pub lua_before: SortedSet<String>,
}

/// What setup scripts are, mathematically.
pub struct Scripts {
    pub lua_start: Seq<Seq<char>>,
    pub lua_after: Seq<Seq<char>>,
    pub lua_before: Seq<Seq<char>>,
}

impl View for SetupScript {
    type V = Scripts;

    open spec fn view(&self) -> Scripts {
        Scripts {
            lua_start: self.lua_start.members(),
            lua_after: self.lua_after.members(),
            lua_before: self.lua_before.members(),
        }
    }
}

/// `all` holds exactly the scripts of `a` and `b`, in order.
pub open spec fn united(all: Seq<Seq<char>>, a: Seq<Seq<char>>, b: Seq<Seq<char>>) -> bool {
    order::ascending::<String>(all) && forall|s: Seq<char>| #[trigger]
        all.contains(s) <==> a.contains(s) || b.contains(s)
}

/// `all` holds exactly the scripts of `a` and `b`.
pub open spec fn scripts_united(all: Scripts, a: Scripts, b: Scripts) -> bool {
    &&& united(all.lua_start, a.lua_start, b.lua_start)
    &&& united(all.lua_after, a.lua_after, b.lua_after)
    &&& united(all.lua_before, a.lua_before, b.lua_before)
}

/// The code of setup scripts.
pub open spec fn scripts_code(s: Scripts) -> Seq<u8> {
    digest::texts_code(s.lua_start) + digest::texts_code(s.lua_after) + digest::texts_code(
        s.lua_before,
    )
}

fn one_or_none(s: Option<String>) -> (set: SortedSet<String>)
    ensures
        set.wf(),
        forall|k: Seq<char>| #[trigger] set.has(k) <==> text::optional_string(s) == Some(k),
{
    let mut set: SortedSet<String> = SortedSet::new();
    if let Some(s) = s {
        set.insert(s);
    }
    set
}

impl SetupScript {
    /// Every set is in order.
    pub open spec fn wf(&self) -> bool {
        self.lua_start.wf() && self.lua_after.wf() && self.lua_before.wf()
    }

    /// The scripts of one entry.
    pub fn from(value: SetupScriptOne) -> (script: SetupScript)
        ensures
            script.wf(),
            forall|k: Seq<char>| #[trigger]
                script.lua_start.has(k) <==> text::optional_string(value.lua_start) == Some(k),
            forall|k: Seq<char>| #[trigger]
                script.lua_after.has(k) <==> text::optional_string(value.lua_after) == Some(k),
            forall|k: Seq<char>| #[trigger]
                script.lua_before.has(k) <==> text::optional_string(value.lua_before) == Some(k),
    {
        SetupScript {
            lua_start: one_or_none(value.lua_start),
            lua_after: one_or_none(value.lua_after),
            lua_before: one_or_none(value.lua_before),
        }
    }

    /// Adds the scripts of another plugin.
    pub fn add_assign(&mut self, rhs: SetupScript)
        requires
            old(self).wf(),
        ensures
            final(self).wf(),
            scripts_united(final(self)@, old(self)@, rhs@),
    {
        let ghost before = *self;
        self.lua_start.extend(rhs.lua_start);
        self.lua_after.extend(rhs.lua_after);
        self.lua_before.extend(rhs.lua_before);
        proof {
            assert forall|s: Seq<char>| #[trigger]
                self@.lua_start.contains(s) <==> before@.lua_start.contains(s)
                    || rhs@.lua_start.contains(s) by {
                assert(self.lua_start.has(s) <==> before.lua_start.has(s) || rhs.lua_start.has(s));
            }
            assert forall|s: Seq<char>| #[trigger]
                self@.lua_after.contains(s) <==> before@.lua_after.contains(s)
                    || rhs@.lua_after.contains(s) by {
                assert(self.lua_after.has(s) <==> before.lua_after.has(s) || rhs.lua_after.has(s));
            }
            assert forall|s: Seq<char>| #[trigger]
                self@.lua_before.contains(s) <==> before@.lua_before.contains(s)
                    || rhs@.lua_before.contains(s) by {
                assert(self.lua_before.has(s) <==> before.lua_before.has(s) || rhs.lua_before.has(
                    s,
                ));
            }
        }
    }

    /// The same scripts again.
    pub fn duplicate(&self) -> (copy: SetupScript)
        ensures
            copy@ == self@,
    {
        SetupScript {
            lua_start: self.lua_start.duplicate(),
            lua_after: self.lua_after.duplicate(),
            lua_before: self.lua_before.duplicate(),
        }
    }

    pub(crate) fn push_code(&self, out: &mut Vec<u8>)
        ensures
            final(out)@ == old(out)@ + scripts_code(self@),
    {
        let ghost before = out@;
        digest::push_texts(out, &self.lua_start.members);
        digest::push_texts(out, &self.lua_after.members);
        digest::push_texts(out, &self.lua_before.members);
        proof {
            order::lemma_set_members(self.lua_start);
            order::lemma_set_members(self.lua_after);
            order::lemma_set_members(self.lua_before);
            assert(out@ =~= before + scripts_code(self@));
        }
    }
}

impl Default for SetupScript {
    /// No scripts.
    fn default() -> (script: SetupScript)
        ensures
            script.wf(),
            script@.lua_start.len() == 0,
            script@.lua_after.len() == 0,
            script@.lua_before.len() == 0,
    {
        SetupScript {
            lua_start: SortedSet::new(),
            lua_after: SortedSet::new(),
            lua_before: SortedSet::new(),
        }
    }
}

/// How a plugin takes part in merging.
#[derive(Debug)]
pub struct MergeConfig {
    /// The files to leave out; `None` for the standard list.
    pub ignore: Option<String>,
    pub merge: bool,
}

/// Plugins merge unless told otherwise.
pub fn default_merge_true() -> (merge: bool)
    ensures
        merge,
{
    true
}

/// `s` ends with `suffix`.
pub open spec fn ends_with(s: Seq<char>, suffix: Seq<char>) -> bool {
    suffix.len() <= s.len() && s.skip(s.len() - suffix.len()) == suffix
}

/// A URL without trailing `.git` and separators, in whatever order they come.
pub open spec fn without_git_suffix(url: Seq<char>) -> Seq<char>
    decreases url.len(),
{
    if ends_with(url, seq!['.', 'g', 'i', 't']) {
        without_git_suffix(url.take(url.len() - 4))
    } else if url.len() > 0 && url.last() == '/' {
        without_git_suffix(url.drop_last())
    } else {
        url
    }
}

/// What follows the last separator.
pub open spec fn last_segment(s: Seq<char>) -> Seq<char>
    decreases s.len(),
{
    if s.len() == 0 || s.last() == '/' {
        Seq::empty()
    } else {
        last_segment(s.drop_last()).push(s.last())
    }
}

/// The directory that cloning a URL creates: its last segment, without a trailing `.git` and
/// trailing separators.
pub fn repo_basename(url: &str) -> (name: String)
    ensures
        name@ == last_segment(without_git_suffix(url@)),
{
    let chars = text::chars_of(url);
    let mut end: usize = chars.len();
    let ghost suffix = seq!['.', 'g', 'i', 't'];
    assert(chars@.take(end as int) =~= chars@);
    loop
        invariant
            end <= chars@.len(),
            chars@ == url@,
            suffix == seq!['.', 'g', 'i', 't'],
            without_git_suffix(url@) == without_git_suffix(chars@.take(end as int)),
        ensures
            end <= chars@.len(),
            without_git_suffix(url@) == chars@.take(end as int),
        decreases end,
    {
        let ghost cur = chars@.take(end as int);
        if end >= 4 && chars[end - 4] == '.' && chars[end - 3] == 'g' && chars[end - 2] == 'i'
            && chars[end - 1] == 't' {
            proof {
                assert(cur.skip(cur.len() - 4) =~= suffix);
                assert(cur.take(cur.len() - 4) =~= chars@.take(end - 4));
            }
            end = end - 4;
        } else if end > 0 && chars[end - 1] == '/' {
            proof {
                if ends_with(cur, suffix) {
                    assert(cur.skip(cur.len() - 4)[3] == suffix[3]);
                }
                assert(cur.drop_last() =~= chars@.take(end - 1));
            }
            end = end - 1;
        } else {
            proof {
                if ends_with(cur, suffix) {
                    let tail = cur.skip(cur.len() - 4);
                    assert(tail[0] == suffix[0] && tail[1] == suffix[1] && tail[2] == suffix[2]
                        && tail[3] == suffix[3]);
                }
            }
            break;
        }
    }
    let mut start: usize = end;
    let ghost kept = chars@.take(end as int);
    proof {
        assert(kept.skip(end as int) =~= Seq::<char>::empty());
        assert(kept.take(end as int) =~= kept);
        assert(last_segment(kept) =~= last_segment(kept.take(end as int)) + kept.skip(end as int));
    }
    while start > 0 && chars[start - 1] != '/'
        invariant
            start <= end <= chars@.len(),
            kept == chars@.take(end as int),
            last_segment(kept) == last_segment(kept.take(start as int)) + kept.skip(start as int),
        decreases start,
    {
        proof {
            let front = kept.take(start as int);
            assert(front.last() == chars@[start - 1]);
            assert(front.drop_last() =~= kept.take(start - 1));
            assert(kept.skip(start - 1) =~= seq![front.last()] + kept.skip(start as int));
            assert(last_segment(kept) =~= last_segment(kept.take(start - 1)) + kept.skip(start - 1));
        }
        start = start - 1;
    }
    proof {
        let front = kept.take(start as int);
        if start > 0 {
            assert(front.last() == chars@[start - 1]);
        }
        assert(last_segment(front) =~= Seq::<char>::empty());
        assert(last_segment(kept) =~= chars@.subrange(start as int, end as int));
    }
    text::text_between(&chars, start, end)
}

/// A plugin entry of the configuration.
pub struct PluginConfig {
    /// The internal identity, once it is known.
    pub id: Option<String>,
    pub cache: CacheConfig,
    pub lazy_type: LazyType,
    pub depends: Vec<String>,
    pub custom_name: Option<String>,
    pub script: SetupScript,
    pub merge: MergeConfig,
}

/// The name under which a plugin is referred to: its own, or that of its repository.
pub open spec fn public_name(custom: Option<Seq<char>>, repo: Option<RepoSource>) -> Option<Seq<char>> {
    match custom {
        Some(name) => Some(name),
        None => match repo {
            Some(RepoSource::GitHub { repo, .. }) => Some(repo@),
            Some(RepoSource::Git { url, .. }) => Some(last_segment(without_git_suffix(url@))),
            None => None,
        },
    }
}

impl PluginConfig {
    /// The name under which the plugin is referred to.
    pub open spec fn dep_name_text(&self) -> Option<Seq<char>> {
        public_name(text::optional_string(self.custom_name), self.cache.repo)
    }

    /// The name under which the plugin is referred to.  A plugin of scripts only has none
    /// unless it is given one.
    pub fn dep_name(&self) -> (name: Option<String>)
        ensures
            text::optional_string(name) == self.dep_name_text(),
    {
        match &self.custom_name {
            Some(name) => Some(name.clone()),
            None => match &self.cache.repo {
                Some(RepoSource::GitHub { repo, .. }) => Some(repo.clone()),
                Some(RepoSource::Git { url, .. }) => Some(repo_basename(url.as_str())),
                None => None,
            },
        }
    }

    /// The internal identity as text.
    pub open spec fn internal_id_text(&self) -> Seq<char> {
        match self.dep_name_text() {
            Some(name) => name,
            None => digest::digest_text(digest::xxh3_digest(scripts_code(self.script@))),
        }
    }

    /// The internal identity: the name, or a digest of the scripts where there is none.
    pub fn compute_internal_id(&self) -> (id: String)
        ensures
            id@ == self.internal_id_text(),
    {
        match self.dep_name() {
            Some(name) => name,
            None => {
                let mut code: Vec<u8> = Vec::new();
                self.script.push_code(&mut code);
                assert(code@ =~= scripts_code(self.script@));
                digest::digest_string(digest::xxh3_128(&code))
            },
        }
    }
}

/// The code of setup scripts tells them apart: plugins of scripts only have different digest
/// inputs unless their scripts are the same.
pub proof fn law_scripts_code(a: Scripts, b: Scripts)
    requires
        scripts_code(a) == scripts_code(b),
    ensures
        a == b,
{
    digest::lemma_texts_code();
    let code = |list: Seq<Seq<char>>| digest::texts_code(list);
    let ra = code(a.lua_after) + code(a.lua_before);
    let rb = code(b.lua_after) + code(b.lua_before);
    assert(scripts_code(a) =~= code(a.lua_start) + ra);
    assert(scripts_code(b) =~= code(b.lua_start) + rb);
    digest::lemma_read(code, a.lua_start, b.lua_start, ra, rb);
    digest::lemma_read(code, a.lua_after, b.lua_after, code(a.lua_before), code(b.lua_before));
    digest::lemma_readable_injective(code, a.lua_before, b.lua_before);
}

impl DagNode for PluginConfig {
    open spec fn node_id(&self) -> Option<Seq<char>> {
        text::optional_string(self.id)
    }

    open spec fn node_depends(&self) -> Seq<Seq<char>> {
        text::strings(self.depends@)
    }

    fn id(&self) -> (id: Option<&str>) {
        match &self.id {
            Some(id) => Some(id.as_str()),
            None => None,
        }
    }

    fn depends(&self) -> (names: Vec<&str>) {
        let mut names: Vec<&str> = Vec::new();
        let ghost all = text::strings(self.depends@);
        let mut i: usize = 0;
        while i < self.depends.len()
            invariant
                i <= self.depends@.len(),
                all == text::strings(self.depends@),
                text::slices(names@) == all.take(i as int),
            decreases self.depends@.len() - i,
        {
            let ghost before = names@;
            names.push(self.depends[i].as_str());
            assert(text::slices(names@) =~= text::slices(before).push(all[i as int]));
            assert(all.take(i as int + 1) =~= all.take(i as int).push(all[i as int]));
            i = i + 1;
        }
        assert(all.take(i as int) =~= all);
        names
    }
}

/// A configuration: plugin entries in order.
pub struct Config {
    pub plugins: Vec<PluginConfig>,
}

/// The entries of several configurations, one after the other.
pub open spec fn all_plugins(list: Seq<Config>) -> Seq<PluginConfig>
    decreases list.len(),
{
    if list.len() == 0 {
        Seq::empty()
    } else {
        all_plugins(list.drop_last()) + list.last().plugins@
    }
}

impl Config {
    /// Appends the entries of another configuration.
    pub fn add_assign(&mut self, rhs: Config)
        ensures
            final(self).plugins@ == old(self).plugins@ + rhs.plugins@,
    {
        let mut more = rhs.plugins;
        self.plugins.append(&mut more);
    }

    /// All configurations in one.
    pub fn sum(list: Vec<Config>) -> (config: Config)
        ensures
            config.plugins@ == all_plugins(list@),
    {
        let ghost raw = list@;
        let mut config = Config { plugins: Vec::new() };
        assert(raw.take(0) =~= Seq::<Config>::empty());
        for next in it: list
            invariant
                it.seq() == raw,
                config.plugins@ == all_plugins(raw.take(it.index() as int)),
        {
            config.add_assign(next);
            assert(raw.take(it.index() as int + 1).drop_last() =~= raw.take(it.index() as int));
        }
        assert(raw.take(raw.len() as int) =~= raw);
        config
    }
}

/// The lazy triggers of a plugin entry.
pub struct LazyTypeDeserializer {
    pub start: bool,
    pub on_event: Vec<String>,
    pub on_cmd: Vec<String>,
    pub on_ft: Vec<String>,
    pub on_func: Vec<String>,
    pub on_source: Vec<String>,
    pub on_map: KeyPattern,
}

/// What is said of a plugin that is to start and to be lazy.
pub const START_WITH_TRIGGER: &'static str =
    "`start = true` cannot be combined with a lazy trigger (on_event/on_cmd/on_ft/on_func/on_source/on_map)";

impl LazyTypeDeserializer {
    /// Some trigger is given.
    pub open spec fn lazy(&self) -> bool {
        ||| self.on_event@.len() > 0
        ||| self.on_cmd@.len() > 0
        ||| self.on_ft@.len() > 0
        ||| self.on_func@.len() > 0
        ||| self.on_source@.len() > 0
        ||| lazy_type::pattern_model(self.on_map).len() > 0
    }

    /// The event is among the triggers.  The key patterns always are, even without any.
    pub open spec fn triggers(&self, e: Event) -> bool {
        match e {
            Event::Autocmd(s) => text::strings(self.on_event@).contains(s),
            Event::UserCmd(s) => text::strings(self.on_cmd@).contains(s),
            Event::FileType(s) => text::strings(self.on_ft@).contains(s),
            Event::VimFunc(s) => text::strings(self.on_func@).contains(s),
            Event::OnSource(s) => text::strings(self.on_source@).contains(s),
            Event::OnMap(p) => p == lazy_type::pattern_model(self.on_map),
            Event::LuaModule(_) => false,
        }
    }
}

/// The texts of the events of one sort, in order.
pub open spec fn texts_of(events: Seq<Event>, rank: int) -> Seq<Seq<char>>
    decreases events.len(),
{
    if events.len() == 0 {
        Seq::empty()
    } else {
        let before = texts_of(events.drop_last(), rank);
        if lazy_type::event_rank(events.last()) == rank {
            before.push(lazy_type::event_text(events.last()))
        } else {
            before
        }
    }
}

/// The key patterns of the last mapping event; none without one.
pub open spec fn last_map(events: Seq<Event>) -> Seq<(Option<char>, Seq<Seq<char>>)>
    decreases events.len(),
{
    if events.len() == 0 {
        Seq::empty()
    } else {
        match events.last() {
            Event::OnMap(p) => p,
            _ => last_map(events.drop_last()),
        }
    }
}

fn insert_autocmds(events: &mut SortedSet<LoadEvent>, list: Vec<String>)
    requires
        old(events).wf(),
    ensures
        final(events).wf(),
        forall|e: Event| #[trigger]
            final(events).has(e) <==> old(events).has(e) || (e is Autocmd && text::strings(
                list@,
            ).contains(lazy_type::event_text(e))),
{
    let ghost before = *events;
    let ghost raw = list@;
    let ghost names = text::strings(raw);
    assert(names.take(0) =~= Seq::<Seq<char>>::empty());
    for name in it: list
        invariant
            it.seq() == raw,
            names == text::strings(raw),
            events.wf(),
            forall|e: Event| #[trigger]
                events.has(e) <==> before.has(e) || (e is Autocmd && names.take(
                    it.index() as int,
                ).contains(lazy_type::event_text(e))),
    {
        let ghost n = it.index() as int;
        let ghost previous = *events;
        let event = LoadEvent::Autocmd(name);
        let ghost m = event.model();
        assert(m == Event::Autocmd(names[n]));
        events.insert(event);
        proof {
            assert(names.take(n + 1) =~= names.take(n).push(names[n]));
            assert forall|e: Event| #[trigger]
                events.has(e) <==> before.has(e) || (e is Autocmd && names.take(n + 1).contains(
                    lazy_type::event_text(e),
                )) by {
                order::lemma_contains_push(names.take(n), names[n], lazy_type::event_text(e));
                assert(previous.has(e) <==> before.has(e) || (e is Autocmd && names.take(
                    n,
                ).contains(lazy_type::event_text(e))));
            }
        }
    }
    assert(names.take(names.len() as int) =~= names);
}

fn insert_commands(events: &mut SortedSet<LoadEvent>, list: Vec<String>)
    requires
        old(events).wf(),
    ensures
        final(events).wf(),
        forall|e: Event| #[trigger]
            final(events).has(e) <==> old(events).has(e) || (e is UserCmd && text::strings(
                list@,
            ).contains(lazy_type::event_text(e))),
{
    let ghost before = *events;
    let ghost raw = list@;
    let ghost names = text::strings(raw);
    assert(names.take(0) =~= Seq::<Seq<char>>::empty());
    for name in it: list
        invariant
            it.seq() == raw,
            names == text::strings(raw),
            events.wf(),
            forall|e: Event| #[trigger]
                events.has(e) <==> before.has(e) || (e is UserCmd && names.take(
                    it.index() as int,
                ).contains(lazy_type::event_text(e))),
    {
        let ghost n = it.index() as int;
        let ghost previous = *events;
        let event = LoadEvent::UserCmd(name);
        let ghost m = event.model();
        assert(m == Event::UserCmd(names[n]));
        events.insert(event);
        proof {
            assert(names.take(n + 1) =~= names.take(n).push(names[n]));
            assert forall|e: Event| #[trigger]
                events.has(e) <==> before.has(e) || (e is UserCmd && names.take(n + 1).contains(
                    lazy_type::event_text(e),
                )) by {
                order::lemma_contains_push(names.take(n), names[n], lazy_type::event_text(e));
                assert(previous.has(e) <==> before.has(e) || (e is UserCmd && names.take(
                    n,
                ).contains(lazy_type::event_text(e))));
            }
        }
    }
    assert(names.take(names.len() as int) =~= names);
}

fn insert_file_types(events: &mut SortedSet<LoadEvent>, list: Vec<String>)
    requires
        old(events).wf(),
    ensures
        final(events).wf(),
        forall|e: Event| #[trigger]
            final(events).has(e) <==> old(events).has(e) || (e is FileType && text::strings(
                list@,
            ).contains(lazy_type::event_text(e))),
{
    let ghost before = *events;
    let ghost raw = list@;
    let ghost names = text::strings(raw);
    assert(names.take(0) =~= Seq::<Seq<char>>::empty());
    for name in it: list
        invariant
            it.seq() == raw,
            names == text::strings(raw),
            events.wf(),
            forall|e: Event| #[trigger]
                events.has(e) <==> before.has(e) || (e is FileType && names.take(
                    it.index() as int,
                ).contains(lazy_type::event_text(e))),
    {
        let ghost n = it.index() as int;
        let ghost previous = *events;
        let event = LoadEvent::FileType(name);
        let ghost m = event.model();
        assert(m == Event::FileType(names[n]));
        events.insert(event);
        proof {
            assert(names.take(n + 1) =~= names.take(n).push(names[n]));
            assert forall|e: Event| #[trigger]
                events.has(e) <==> before.has(e) || (e is FileType && names.take(n + 1).contains(
                    lazy_type::event_text(e),
                )) by {
                order::lemma_contains_push(names.take(n), names[n], lazy_type::event_text(e));
                assert(previous.has(e) <==> before.has(e) || (e is FileType && names.take(
                    n,
                ).contains(lazy_type::event_text(e))));
            }
        }
    }
    assert(names.take(names.len() as int) =~= names);
}

fn insert_functions(events: &mut SortedSet<LoadEvent>, list: Vec<String>)
    requires
        old(events).wf(),
    ensures
        final(events).wf(),
        forall|e: Event| #[trigger]
            final(events).has(e) <==> old(events).has(e) || (e is VimFunc && text::strings(
                list@,
            ).contains(lazy_type::event_text(e))),
{
    let ghost before = *events;
    let ghost raw = list@;
    let ghost names = text::strings(raw);
    assert(names.take(0) =~= Seq::<Seq<char>>::empty());
    for name in it: list
        invariant
            it.seq() == raw,
            names == text::strings(raw),
            events.wf(),
            forall|e: Event| #[trigger]
                events.has(e) <==> before.has(e) || (e is VimFunc && names.take(
                    it.index() as int,
                ).contains(lazy_type::event_text(e))),
    {
        let ghost n = it.index() as int;
        let ghost previous = *events;
        let event = LoadEvent::VimFunc(name);
        let ghost m = event.model();
        assert(m == Event::VimFunc(names[n]));
        events.insert(event);
        proof {
            assert(names.take(n + 1) =~= names.take(n).push(names[n]));
            assert forall|e: Event| #[trigger]
                events.has(e) <==> before.has(e) || (e is VimFunc && names.take(n + 1).contains(
                    lazy_type::event_text(e),
                )) by {
                order::lemma_contains_push(names.take(n), names[n], lazy_type::event_text(e));
                assert(previous.has(e) <==> before.has(e) || (e is VimFunc && names.take(
                    n,
                ).contains(lazy_type::event_text(e))));
            }
        }
    }
    assert(names.take(names.len() as int) =~= names);
}

fn insert_sources(events: &mut SortedSet<LoadEvent>, list: Vec<String>)
    requires
        old(events).wf(),
    ensures
        final(events).wf(),
        forall|e: Event| #[trigger]
            final(events).has(e) <==> old(events).has(e) || (e is OnSource && text::strings(
                list@,
            ).contains(lazy_type::event_text(e))),
{
    let ghost before = *events;
    let ghost raw = list@;
    let ghost names = text::strings(raw);
    assert(names.take(0) =~= Seq::<Seq<char>>::empty());
    for name in it: list
        invariant
            it.seq() == raw,
            names == text::strings(raw),
            events.wf(),
            forall|e: Event| #[trigger]
                events.has(e) <==> before.has(e) || (e is OnSource && names.take(
                    it.index() as int,
                ).contains(lazy_type::event_text(e))),
    {
        let ghost n = it.index() as int;
        let ghost previous = *events;
        let event = LoadEvent::OnSource(name);
        let ghost m = event.model();
        assert(m == Event::OnSource(names[n]));
        events.insert(event);
        proof {
            assert(names.take(n + 1) =~= names.take(n).push(names[n]));
            assert forall|e: Event| #[trigger]
                events.has(e) <==> before.has(e) || (e is OnSource && names.take(n + 1).contains(
                    lazy_type::event_text(e),
                )) by {
                order::lemma_contains_push(names.take(n), names[n], lazy_type::event_text(e));
                assert(previous.has(e) <==> before.has(e) || (e is OnSource && names.take(
                    n,
                ).contains(lazy_type::event_text(e))));
            }
        }
    }
    assert(names.take(names.len() as int) =~= names);
}

impl LazyType {
    /// What the triggers of an entry say of when a plugin is loaded.
    ///
    /// An entry cannot start and have triggers.  Without `start` a plugin is lazy, even without
    /// any trigger.
    pub fn try_from(val: LazyTypeDeserializer) -> (result: Result<LazyType, &'static str>)
        ensures
            match result {
                Ok(LazyType::Start) => val.start && !val.lazy(),
                Ok(LazyType::Opt(events)) => {
                    &&& !val.start
                    &&& events.wf()
                    &&& forall|e: Event| #[trigger] events.has(e) <==> val.triggers(e)
                },
                Err(message) => val.start && val.lazy() && message@ == START_WITH_TRIGGER@,
            },
    {
        let lazy = val.on_event.len() > 0 || val.on_cmd.len() > 0 || val.on_ft.len() > 0
            || val.on_func.len() > 0 || val.on_source.len() > 0 || !val.on_map.0.is_empty();
        if val.start && lazy {
            return Err(START_WITH_TRIGGER);
        }
        if val.start {
            return Ok(LazyType::Start);
        }
        let ghost given = val;
        let LazyTypeDeserializer { on_event, on_cmd, on_ft, on_func, on_source, on_map, .. } = val;
        let mut events: SortedSet<LoadEvent> = SortedSet::new();
        insert_autocmds(&mut events, on_event);
        insert_commands(&mut events, on_cmd);
        insert_file_types(&mut events, on_ft);
        insert_functions(&mut events, on_func);
        insert_sources(&mut events, on_source);
        let ghost before = events;
        events.insert(LoadEvent::OnMap(on_map));
        proof {
            assert forall|e: Event| #[trigger] events.has(e) <==> given.triggers(e) by {
                assert(events.has(e) <==> before.has(e) || e == Event::OnMap(
                    lazy_type::pattern_model(on_map),
                ));
            }
        }
        Ok(LazyType::Opt(events))
    }
}

/// Lists made of events by their sort.
struct Sorted {
    on_event: Vec<String>,
    on_cmd: Vec<String>,
    on_ft: Vec<String>,
    on_func: Vec<String>,
    on_source: Vec<String>,
    on_map: KeyPattern,
}

spec fn sorts(lists: Sorted, events: Seq<Event>) -> bool {
    &&& text::strings(lists.on_event@) == texts_of(events, 0)
    &&& text::strings(lists.on_cmd@) == texts_of(events, 1)
    &&& text::strings(lists.on_ft@) == texts_of(events, 2)
    &&& text::strings(lists.on_func@) == texts_of(events, 3)
    &&& text::strings(lists.on_source@) == texts_of(events, 4)
    &&& lazy_type::pattern_model(lists.on_map) == last_map(events)
}

proof fn lemma_pushed(list: Seq<String>, s: String)
    ensures
        text::strings(list.push(s)) == text::strings(list).push(s@),
{
    assert(text::strings(list.push(s)) =~= text::strings(list).push(s@));
}

impl LazyTypeDeserializer {
    /// The triggers that stand for a lazy type.  Lua modules are found, not configured, and have
    /// no trigger.
    pub fn from(val: &LazyType) -> (triggers: LazyTypeDeserializer)
        ensures
            triggers.start == (val@ is Start),
            ({
                let events = match val@ {
                    Lazy::Start => Seq::<Event>::empty(),
                    Lazy::Opt(events) => events,
                };
                &&& text::strings(triggers.on_event@) == texts_of(events, 0)
                &&& text::strings(triggers.on_cmd@) == texts_of(events, 1)
                &&& text::strings(triggers.on_ft@) == texts_of(events, 2)
                &&& text::strings(triggers.on_func@) == texts_of(events, 3)
                &&& text::strings(triggers.on_source@) == texts_of(events, 4)
                &&& lazy_type::pattern_model(triggers.on_map) == last_map(events)
            }),
    {
        let mut lists = Sorted {
            on_event: Vec::new(),
            on_cmd: Vec::new(),
            on_ft: Vec::new(),
            on_func: Vec::new(),
            on_source: Vec::new(),
            on_map: KeyPattern::empty(),
        };
        proof {
            let none = Seq::<Event>::empty();
            assert(text::strings(lists.on_event@) =~= Seq::<Seq<char>>::empty());
            assert(text::strings(lists.on_cmd@) =~= Seq::<Seq<char>>::empty());
            assert(text::strings(lists.on_ft@) =~= Seq::<Seq<char>>::empty());
            assert(text::strings(lists.on_func@) =~= Seq::<Seq<char>>::empty());
            assert(text::strings(lists.on_source@) =~= Seq::<Seq<char>>::empty());
            assert(lazy_type::pattern_model(lists.on_map) =~= last_map(none));
            assert(sorts(lists, none));
        }
        let start = match val {
            LazyType::Start => true,
            LazyType::Opt(set) => {
                let ghost events = set.members();
                let mut i: usize = 0;
                assert(events.take(0) =~= Seq::<Event>::empty());
                while i < set.len()
                    invariant
                        i <= events.len(),
                        events == set.members(),
                        sorts(lists, events.take(i as int)),
                    decreases events.len() - i,
                {
                    proof {
                        assert(events.take(i as int + 1).drop_last() =~= events.take(i as int));
                        assert(events.take(i as int + 1).last() == events[i as int]);
                    }
                    let ghost old_lists = lists;
                    match set.at(i) {
                        LoadEvent::Autocmd(s) => {
                            lists.on_event.push(s.clone());
                            proof {
                                lemma_pushed(old_lists.on_event@, *s);
                            }
                        },
                        LoadEvent::UserCmd(s) => {
                            lists.on_cmd.push(s.clone());
                            proof {
                                lemma_pushed(old_lists.on_cmd@, *s);
                            }
                        },
                        LoadEvent::FileType(s) => {
                            lists.on_ft.push(s.clone());
                            proof {
                                lemma_pushed(old_lists.on_ft@, *s);
                            }
                        },
                        LoadEvent::VimFunc(s) => {
                            lists.on_func.push(s.clone());
                            proof {
                                lemma_pushed(old_lists.on_func@, *s);
                            }
                        },
                        LoadEvent::OnSource(s) => {
                            lists.on_source.push(s.clone());
                            proof {
                                lemma_pushed(old_lists.on_source@, *s);
                            }
                        },
                        LoadEvent::OnMap(p) => {
                            lists.on_map = p.duplicate();
                        },
                        LoadEvent::LuaModule(_) => {},
                    }
                    i = i + 1;
                }
                assert(events.take(i as int) =~= events);
                false
            },
        };
        let Sorted { on_event, on_cmd, on_ft, on_func, on_source, on_map } = lists;
        LazyTypeDeserializer { start, on_event, on_cmd, on_ft, on_func, on_source, on_map }
    }
}

/// Reading the triggers of a lazy type gives it back, if it came from triggers: it has one
/// mapping event and no Lua modules.
pub proof fn law_triggers_round_trip(val: Lazy, triggers: LazyTypeDeserializer, e: Event)
    requires
        val matches Lazy::Opt(events) && {
            &&& text::strings(triggers.on_event@) == texts_of(events, 0)
            &&& text::strings(triggers.on_cmd@) == texts_of(events, 1)
            &&& text::strings(triggers.on_ft@) == texts_of(events, 2)
            &&& text::strings(triggers.on_func@) == texts_of(events, 3)
            &&& text::strings(triggers.on_source@) == texts_of(events, 4)
            &&& lazy_type::pattern_model(triggers.on_map) == last_map(events)
            &&& (exists|i: int| 0 <= i < events.len() && (#[trigger] events[i]) is OnMap)
            &&& forall|i: int, j: int|
                0 <= i < j < events.len() ==> !((#[trigger] events[i]) is OnMap
                    && (#[trigger] events[j]) is OnMap)
            &&& forall|i: int| 0 <= i < events.len() ==> !((#[trigger] events[i]) is LuaModule)
        },
    ensures
        triggers.triggers(e) <==> val->Opt_0.contains(e),
{
    let events = val->Opt_0;
    lemma_texts_of(events, e);
    lemma_last_map(events);
    match e {
        Event::OnMap(p) => {
            let i = choose|i: int| 0 <= i < events.len() && (#[trigger] events[i]) is OnMap;
            let k = choose|k: int|
                0 <= k < events.len() && #[trigger] events[k] == Event::OnMap(last_map(events));
            assert(i == k);
            if events.contains(e) {
                let n = choose|n: int| 0 <= n < events.len() && events[n] == e;
                assert(n == i);
            }
            if p == last_map(events) {
                assert(events[k] == e);
            }
        },
        Event::LuaModule(_) => {
            if events.contains(e) {
                let n = choose|n: int| 0 <= n < events.len() && events[n] == e;
                assert(events[n] is LuaModule);
            }
        },
        _ => {},
    }
}

proof fn lemma_texts_of(events: Seq<Event>, e: Event)
    ensures
        !(e is OnMap) ==> (texts_of(events, lazy_type::event_rank(e)).contains(
            lazy_type::event_text(e),
        ) <==> events.contains(e)),
    decreases events.len(),
{
    if events.len() > 0 && !(e is OnMap) {
        let front = events.drop_last();
        lemma_texts_of(front, e);
        let before = texts_of(front, lazy_type::event_rank(e));
        assert(events =~= front.push(events.last()));
        order::lemma_contains_push(front, events.last(), e);
        if lazy_type::event_rank(events.last()) == lazy_type::event_rank(e) {
            order::lemma_contains_push(
                before,
                lazy_type::event_text(events.last()),
                lazy_type::event_text(e),
            );
        }
    }
}

proof fn lemma_last_map(events: Seq<Event>)
    ensures
        (exists|i: int| 0 <= i < events.len() && (#[trigger] events[i]) is OnMap) ==> exists|k: int|
            0 <= k < events.len() && #[trigger] events[k] == Event::OnMap(last_map(events)),
    decreases events.len(),
{
    if events.len() > 0 {
        let front = events.drop_last();
        lemma_last_map(front);
        if events.last() is OnMap {
            assert(events[events.len() - 1] == Event::OnMap(last_map(events)));
        } else if exists|i: int| 0 <= i < events.len() && (#[trigger] events[i]) is OnMap {
            let i = choose|i: int| 0 <= i < events.len() && (#[trigger] events[i]) is OnMap;
            assert(front[i] is OnMap);
            let k = choose|k: int|
                0 <= k < front.len() && #[trigger] front[k] == Event::OnMap(last_map(front));
            assert(events[k] == Event::OnMap(last_map(events)));
        }
    }
}

/// The patterns that a mode character collects: those of each entry, once per time the
/// character occurs among the entry's modes.
pub open spec fn mode_patterns(
    entries: Seq<(Seq<char>, Seq<Seq<char>>)>,
    mode: char,
) -> Seq<Seq<char>>
    decreases entries.len(),
{
    if entries.len() == 0 {
        Seq::empty()
    } else {
        let (modes, patterns) = entries.last();
        mode_patterns(entries.drop_last(), mode) + repeated(patterns, modes, mode)
    }
}

/// `patterns`, once per time `mode` occurs in `modes`.
pub open spec fn repeated(patterns: Seq<Seq<char>>, modes: Seq<char>, mode: char) -> Seq<Seq<char>>
    decreases modes.len(),
{
    if modes.len() == 0 {
        Seq::empty()
    } else {
        let before = repeated(patterns, modes.drop_last(), mode);
        if modes.last() == mode {
            before + patterns
        } else {
            before
        }
    }
}

/// Some entry has the mode.
pub open spec fn has_mode(entries: Seq<(Seq<char>, Seq<Seq<char>>)>, mode: char) -> bool {
    exists|i: int| 0 <= i < entries.len() && (#[trigger] entries[i]).0.contains(mode)
}

/// Entries of a mode map as text.
pub open spec fn mode_entries(list: Seq<(String, Vec<String>)>) -> Seq<(Seq<char>, Seq<Seq<char>>)> {
    list.map_values(|e: (String, Vec<String>)| (e.0@, text::strings(e.1@)))
}

/// The patterns of a mode; none if the mode has none.
pub open spec fn patterns_at(p: KeyPattern, mode: Option<char>) -> Seq<Seq<char>> {
    if p.0.has(mode) {
        text::strings(p.0.at(mode)@)
    } else {
        Seq::empty()
    }
}

impl KeyPattern {
    /// Adds patterns to a mode.
    fn extend_mode(&mut self, mode: ModeChar, patterns: &Vec<String>)
        requires
            old(self).0.wf(),
        ensures
            final(self).0.wf(),
            forall|m: Option<char>| #[trigger]
                final(self).0.has(m) <==> old(self).0.has(m) || m == mode.0,
            forall|m: Option<char>| #[trigger]
                patterns_at(*final(self), m) == (if m == mode.0 {
                    patterns_at(*old(self), m) + text::strings(patterns@)
                } else {
                    patterns_at(*old(self), m)
                }),
    {
        let ghost before = *self;
        let mut list = match self.0.remove(&mode) {
            Some(list) => list,
            None => Vec::new(),
        };
        let ghost first = text::strings(list@);
        assert(first =~= patterns_at(before, mode.0));
        let mut more = lazy_type::duplicate_strings(patterns);
        let ghost second = more@;
        let ghost raw = list@;
        list.append(&mut more);
        assert(text::strings(list@) =~= first + text::strings(patterns@)) by {
            assert(list@ == raw + second);
            assert(text::strings(raw + second) =~= text::strings(raw) + text::strings(second));
        }
        let ghost between = *self;
        self.0.insert(mode, list);
        proof {
            assert forall|m: Option<char>| #[trigger] patterns_at(*self, m) == (if m == mode.0 {
                patterns_at(before, m) + text::strings(patterns@)
            } else {
                patterns_at(before, m)
            }) by {
                assert(between.0.has(m) <==> before.0.has(m) && m != mode.0);
                assert(self.0.has(m) <==> between.0.has(m) || m == mode.0);
                if m != mode.0 && before.0.has(m) {
                    assert(between.0.at(m) == before.0.at(m));
                    assert(self.0.at(m) == between.0.at(m));
                }
            }
        }
    }

    /// Patterns for all modes.
    pub fn all_modes(patterns: &Vec<String>) -> (p: KeyPattern)
        ensures
            p.0.wf(),
            forall|m: Option<char>| #[trigger] p.0.has(m) <==> m is None,
            patterns_at(p, None) == text::strings(patterns@),
    {
        let mut p = KeyPattern::empty();
        p.extend_mode(ModeChar(None), patterns);
        assert(patterns_at(p, None) =~= text::strings(patterns@));
        p
    }

    /// Patterns by mode.  Each character of an entry's modes gets the entry's patterns.
    pub fn by_mode(entries: &Vec<(String, Vec<String>)>) -> (p: KeyPattern)
        ensures
            p.0.wf(),
            !p.0.has(None),
            forall|c: char| #[trigger]
                p.0.has(Some(c)) <==> has_mode(mode_entries(entries@), c),
            forall|c: char| #[trigger]
                patterns_at(p, Some(c)) == mode_patterns(mode_entries(entries@), c),
    {
        let ghost all = mode_entries(entries@);
        let mut p = KeyPattern::empty();
        let mut i: usize = 0;
        assert(all.take(0) =~= Seq::<(Seq<char>, Seq<Seq<char>>)>::empty());
        while i < entries.len()
            invariant
                i <= entries@.len(),
                all == mode_entries(entries@),
                p.0.wf(),
                !p.0.has(None),
                forall|c: char| #[trigger]
                    p.0.has(Some(c)) <==> has_mode(all.take(i as int), c),
                forall|c: char| #[trigger]
                    patterns_at(p, Some(c)) == mode_patterns(all.take(i as int), c),
            decreases entries@.len() - i,
        {
            let entry = &entries[i];
            let ghost front = all.take(i as int);
            let ghost more = all.take(i as int + 1);
            let ghost patterns = text::strings(entry.1@);
            proof {
                assert(more.drop_last() =~= front);
                assert(more.last() == (entry.0@, patterns));
            }
            let modes = text::chars_of(entry.0.as_str());
            let ghost start = p;
            let mut k: usize = 0;
            assert(modes@.take(0) =~= Seq::<char>::empty());
            while k < modes.len()
                invariant
                    k <= modes@.len(),
                    patterns == text::strings(entry.1@),
                    p.0.wf(),
                    !p.0.has(None),
                    forall|c: char| #[trigger]
                        p.0.has(Some(c)) <==> start.0.has(Some(c)) || modes@.take(
                            k as int,
                        ).contains(c),
                    forall|c: char| #[trigger]
                        patterns_at(p, Some(c)) == patterns_at(start, Some(c)) + repeated(
                            patterns,
                            modes@.take(k as int),
                            c,
                        ),
                decreases modes@.len() - k,
            {
                let ghost before = p;
                let mode: char = modes[k];
                p.extend_mode(ModeChar(Some(mode)), &entry.1);
                proof {
                    let taken = modes@.take(k as int);
                    let taken1 = modes@.take(k as int + 1);
                    assert(taken1 =~= taken.push(mode));
                    assert(taken1.drop_last() =~= taken);
                    assert forall|c: char| #[trigger]
                        p.0.has(Some(c)) <==> start.0.has(Some(c)) || taken1.contains(c) by {
                        order::lemma_contains_push(taken, mode, c);
                        assert(before.0.has(Some(c)) <==> start.0.has(Some(c)) || taken.contains(c));
                    }
                    assert forall|c: char| #[trigger]
                        patterns_at(p, Some(c)) == patterns_at(start, Some(c)) + repeated(
                            patterns,
                            taken1,
                            c,
                        ) by {
                        assert(patterns_at(before, Some(c)) == patterns_at(start, Some(c))
                            + repeated(patterns, taken, c));
                        assert(patterns_at(p, Some(c)) =~= patterns_at(start, Some(c)) + repeated(
                            patterns,
                            taken1,
                            c,
                        ));
                    }
                }
                k = k + 1;
            }
            proof {
                assert(modes@.take(modes@.len() as int) =~= modes@);
                assert forall|c: char| #[trigger] p.0.has(Some(c)) <==> has_mode(more, c) by {
                    assert(start.0.has(Some(c)) <==> has_mode(front, c));
                    assert(p.0.has(Some(c)) <==> start.0.has(Some(c)) || modes@.contains(c));
                    if has_mode(front, c) {
                        let j = choose|j: int|
                            0 <= j < front.len() && (#[trigger] front[j]).0.contains(c);
                        assert(more[j] == front[j]);
                    }
                    if modes@.contains(c) {
                        assert(more[i as int].0.contains(c));
                    }
                    if has_mode(more, c) {
                        let j = choose|j: int|
                            0 <= j < more.len() && (#[trigger] more[j]).0.contains(c);
                        if j < i {
                            assert(front[j].0.contains(c));
                        }
                    }
                }
                assert forall|c: char| #[trigger]
                    patterns_at(p, Some(c)) == mode_patterns(more, c) by {
                    assert(patterns_at(start, Some(c)) == mode_patterns(front, c));
                }
            }
            i = i + 1;
        }
        assert(all.take(i as int) =~= all);
        p
    }
}

} // verus!
