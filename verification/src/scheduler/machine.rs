//! The state of the scheduler, and what it does on each event.

use crate::lazy_registration;
use crate::lazy_registration::append_ids;
use crate::order::{Key, SortedMap};
use crate::scheduler;
use crate::scheduler::graph;
use crate::scheduler::graph::{Graph, Loading, Phase};
use crate::scheduler::{
    flush_graphql_chunks, plan_revision, same_rev, Act, Action, EarlyEnd, EarlyKey, Github,
    GithubRev, KeyOf, Plan, RepoRequest, Request, Rev, RevPlan, Revision, Settings, StagedState,
};
use crate::text;
use vstd::prelude::*;

verus! {

/// The scheduler.
pub struct Scheduler {
    pub settings: Settings,
    /// The revision that each repository is asked for at.
    pub seen_rev: SortedMap<String, Option<String>>,
    /// The plugins that were read before all configuration was.
    pub staging: SortedMap<String, StagedState>,
    /// The plugins once all configuration is read.
    pub graph: Graph,
    /// Where the plugins that were read before stand.
    pub node_of: SortedMap<String, usize>,
    /// The plugins that wait for the revision of a repository.
    pub waiting: SortedMap<String, Vec<String>>,
    /// The revisions to resolve.
    pub batch: Vec<GithubRev>,
    pub graphql_total: usize,
    pub graphql_resolved: usize,
    pub progress_sent: bool,
}

/// What a scheduler is, mathematically.
#[verifier::ext_equal]
pub struct Sched {
    pub settings: Settings,
    pub seen: Map<Seq<char>, Option<Seq<char>>>,
    pub staging: Map<Seq<char>, StagedState>,
    pub loading: Loading,
    pub node_of: Map<Seq<char>, int>,
    pub waiting: Map<Seq<char>, Seq<Seq<char>>>,
    pub batch: Seq<Github>,
    pub total: int,
    pub resolved: int,
    pub progress_sent: bool,
}

pub open spec fn seen_map(m: SortedMap<String, Option<String>>) -> Map<Seq<char>, Option<Seq<char>>> {
    Map::new(|k: Seq<char>| m.has(k), |k: Seq<char>| text::optional_string(m.at(k)))
}

pub open spec fn staging_map(m: SortedMap<String, StagedState>) -> Map<Seq<char>, StagedState> {
    Map::new(|k: Seq<char>| m.has(k), |k: Seq<char>| m.at(k))
}

pub open spec fn place_map(m: SortedMap<String, usize>) -> Map<Seq<char>, int> {
    Map::new(|k: Seq<char>| m.has(k), |k: Seq<char>| m.at(k) as int)
}

impl View for Scheduler {
    type V = Sched;

    open spec fn view(&self) -> Sched {
        Sched {
            settings: self.settings,
            seen: seen_map(self.seen_rev),
            staging: staging_map(self.staging),
            loading: self.graph@,
            node_of: place_map(self.node_of),
            waiting: lazy_registration::trigger_map(self.waiting),
            batch: scheduler::github_views(self.batch@),
            total: self.graphql_total as int,
            resolved: self.graphql_resolved as int,
            progress_sent: self.progress_sent,
        }
    }
}

/// Two revisions are asked for of one repository.
#[derive(Debug)]
pub struct Conflict {
    pub canonical: String,
    pub rev_a: Option<String>,
    pub rev_b: Option<String>,
}

/// A revision as it is shown: in quotes, or as missing.
pub open spec fn shown_rev(rev: Option<Seq<char>>) -> Seq<char> {
    match rev {
        Some(rev) => "Some("@ + text::quoted_text(rev) + ")"@,
        None => "None"@,
    }
}

fn show_rev(rev: &Option<String>) -> (s: String)
    ensures
        s@ == shown_rev(text::optional_string(*rev)),
{
    match rev {
        Some(rev) => {
            let mut s = String::from_str("Some(");
            s.append(text::quoted(rev.as_str()).as_str());
            s.append(")");
            s
        },
        None => String::from_str("None"),
    }
}

impl Conflict {
    /// The message for a user.
    pub fn message(&self) -> (message: String)
        ensures
            message@ == "Conflicting revisions for "@ + self.canonical@ + ": "@ + shown_rev(
                text::optional_string(self.rev_a),
            ) + " vs "@ + shown_rev(text::optional_string(self.rev_b)),
    {
        let mut message = String::from_str("Conflicting revisions for ");
        message.append(self.canonical.as_str());
        message.append(": ");
        message.append(show_rev(&self.rev_a).as_str());
        message.append(" vs ");
        message.append(show_rev(&self.rev_b).as_str());
        message
    }
}

/// Why loading cannot go on.
#[derive(Clone, Copy, Debug, PartialEq, Eq, Structural)]
pub enum StuckError {
    /// A plugin that was read is not among those to load.
    Unpromoted,
    /// A plugin waits for what never comes.
    Deadlock,
}

impl StuckError {
    /// The message for a user.
    pub fn message(&self) -> (message: String)
        ensures
            message@ == (match *self {
                StuckError::Unpromoted => "scheduler shutdown with unpromoted staging entries"@,
                StuckError::Deadlock => "scheduler deadlock: plugin never became ready"@,
            }),
    {
        match self {
            StuckError::Unpromoted => String::from_str(
                "scheduler shutdown with unpromoted staging entries",
            ),
            StuckError::Deadlock => String::from_str(
                "scheduler deadlock: plugin never became ready",
            ),
        }
    }
}

/// The state and what is to be done.
pub struct Reply {
    pub s: Sched,
    pub acts: Seq<Act>,
}

/// Nothing is to be done.
pub open spec fn quiet(s: Sched) -> Reply {
    Reply { s, acts: Seq::empty() }
}

/// The repository is asked for at another revision already.
pub open spec fn conflicts(s: Sched, request: Option<Request>) -> bool {
    request is Some && s.seen.contains_key(request->0.canonical) && s.seen[request->0.canonical]
        != request->0.rev
}

/// The revision that the repository is asked for at is noted.
pub open spec fn noted(s: Sched, request: Option<Request>) -> Sched {
    match request {
        Some(r) => if s.seen.contains_key(r.canonical) {
            s
        } else {
            Sched { seen: s.seen.insert(r.canonical, r.rev), ..s }
        },
        None => s,
    }
}

/// A revision is put with those to resolve, and full chunks are asked for.
pub open spec fn batched(s: Sched, canonical: Seq<char>, id: Seq<char>, g: Github) -> Reply {
    Reply {
        s: Sched {
            waiting: s.waiting.insert(
                canonical,
                lazy_registration::ids_at(s.waiting, canonical) + seq![id],
            ),
            batch: scheduler::left_over(s.batch.push(g), false),
            total: s.total + 1,
            ..s
        },
        acts: scheduler::resolve_acts(scheduler::chunks(s.batch.push(g), false)),
    }
}

pub open spec fn staged(s: Sched, id: Seq<char>, state: StagedState) -> Sched {
    Sched { staging: s.staging.insert(id, state), ..s }
}

/// The owner of a repository at GitHub.
pub open spec fn owner_of(request: Option<Request>) -> Seq<char> {
    match request {
        Some(r) => match r.github {
            Some((owner, _)) => owner,
            None => Seq::empty(),
        },
        None => Seq::empty(),
    }
}

/// The name of a repository at GitHub.
pub open spec fn repo_of(request: Option<Request>) -> Seq<char> {
    match request {
        Some(r) => match r.github {
            Some((_, repo)) => repo,
            None => Seq::empty(),
        },
        None => Seq::empty(),
    }
}

/// A plugin was read from the configuration: its early phase begins as soon as its revision is
/// known.
pub open spec fn on_plugin(s: Sched, id: Seq<char>, request: Option<Request>) -> Reply {
    let s1 = noted(s, request);
    match scheduler::plan_for(s.settings, request) {
        Plan::Known(rev) => Reply {
            s: staged(s1, id, StagedState::InFlight),
            acts: seq![Act::StartEarly { key: KeyOf::Staged(id), rev }],
        },
        Plan::IfInstalled => Reply {
            s: staged(s1, id, StagedState::Pending),
            acts: seq![
                Act::CheckCatalog {
                    id,
                    canonical: request->0.canonical,
                    owner: owner_of(request),
                    repo: repo_of(request),
                    wanted: request->0.rev,
                },
            ],
        },
        Plan::Resolve => {
            let r = batched(
                s1,
                request->0.canonical,
                id,
                Github {
                    owner: owner_of(request),
                    repo: repo_of(request),
                    rev: request->0.rev,
                },
            );
            Reply { s: staged(r.s, id, StagedState::Pending), acts: r.acts }
        },
    }
}

/// Late phases begin.
pub open spec fn late_acts(list: Seq<int>) -> Seq<Act> {
    list.map_values(|node: int| Act::StartLate { node })
}

/// A plugin is finished, and what waited for it alone begins.
pub open spec fn ended(s: Sched, i: int) -> Reply {
    Reply {
        s: Sched { loading: graph::finished(s.loading, i), ..s },
        acts: late_acts(graph::started_by(s.loading, i)),
    }
}

/// An early phase ended so that the late phase may follow; it begins unless something holds it.
pub open spec fn ready(s: Sched, i: int) -> Reply {
    let g = graph::in_phase(s.loading, i, Phase::Ready);
    if graph::can_start_late(g.nodes[i]) {
        Reply {
            s: Sched { loading: graph::in_phase(g, i, Phase::Late), ..s },
            acts: seq![Act::StartLate { node: i }],
        }
    } else {
        quiet(Sched { loading: g, ..s })
    }
}

/// A plugin that was read before takes its place.
pub open spec fn promoted_one(s: Sched, id: Seq<char>, i: int) -> Reply {
    if !s.staging.contains_key(id) {
        quiet(s)
    } else {
        let s1 = Sched {
            staging: s.staging.remove(id),
            node_of: s.node_of.insert(id, i),
            ..s
        };
        match s.staging[id] {
            StagedState::Pending => quiet(s1),
            StagedState::InFlight => quiet(
                Sched { loading: graph::in_phase(s1.loading, i, Phase::Early), ..s1 },
            ),
            StagedState::Done(EarlyEnd::Ready) => quiet(
                Sched { loading: graph::in_phase(s1.loading, i, Phase::Ready), ..s1 },
            ),
            StagedState::Done(_) => {
                let r = ended(s1, i);
                Reply { s: r.s, acts: seq![Act::Record { key: KeyOf::Staged(id) }] + r.acts }
            },
        }
    }
}

/// The first plugins take their places.
pub open spec fn promoted(s: Sched, ids: Seq<Seq<char>>, n: nat) -> Reply
    decreases n,
{
    if n == 0 {
        quiet(s)
    } else {
        let r = promoted(s, ids, (n - 1) as nat);
        let next = promoted_one(r.s, ids[n - 1], n - 1);
        Reply { s: next.s, acts: r.acts + next.acts }
    }
}

/// Late phases begin where nothing holds them.
pub open spec fn swept(s: Sched, n: nat) -> Reply
    decreases n,
{
    if n == 0 {
        quiet(s)
    } else {
        let r = swept(s, (n - 1) as nat);
        if graph::can_start_late(r.s.loading.nodes[n - 1]) {
            Reply {
                s: Sched { loading: graph::in_phase(r.s.loading, n - 1, Phase::Late), ..r.s },
                acts: r.acts.push(Act::StartLate { node: n - 1 }),
            }
        } else {
            r
        }
    }
}

/// The number of resolved revisions is told.
pub open spec fn told(s: Sched) -> Seq<Act> {
    seq![Act::Progress { resolved: s.resolved, total: s.total }]
}

/// All configuration is read: plugins take their places, the rest of the revisions is asked for,
/// and what is ready begins.
pub open spec fn on_parsed(s: Sched, g: Loading, ids: Seq<Seq<char>>) -> Reply {
    let a = promoted(Sched { loading: g, ..s }, ids, ids.len());
    let b = Sched { batch: scheduler::left_over(a.s.batch, true), ..a.s };
    let tell = b.total > 0 && !b.progress_sent;
    let c = Sched { progress_sent: b.progress_sent || tell, ..b };
    let d = swept(c, ids.len());
    Reply {
        s: d.s,
        acts: a.acts + scheduler::resolve_acts(scheduler::chunks(a.s.batch, true)) + (if tell {
            told(b)
        } else {
            Seq::empty()
        }) + d.acts,
    }
}

/// The early phase of a placed plugin ended.
pub open spec fn early_ended(s: Sched, key: KeyOf, i: int, end: EarlyEnd) -> Reply {
    if i < 0 || i >= s.loading.nodes.len() || s.loading.nodes[i].phase != Phase::Early {
        quiet(s)
    } else if end == EarlyEnd::Ready {
        ready(s, i)
    } else {
        let r = ended(s, i);
        Reply { s: r.s, acts: seq![Act::Record { key }] + r.acts }
    }
}

/// An early phase ended.  One that was begun before all configuration was read is kept until the
/// plugin has a place.
pub open spec fn on_early(s: Sched, key: KeyOf, end: EarlyEnd) -> Reply {
    match key {
        KeyOf::Node(i) => early_ended(s, key, i, end),
        KeyOf::Staged(id) => if s.node_of.contains_key(id) {
            early_ended(s, key, s.node_of[id], end)
        } else if s.staging.contains_key(id) {
            quiet(staged(s, id, StagedState::Done(end)))
        } else {
            quiet(s)
        },
    }
}

/// A late phase ended.
pub open spec fn on_late(s: Sched, i: int) -> Reply {
    if i < 0 || i >= s.loading.nodes.len() || s.loading.nodes[i].phase != Phase::Late {
        quiet(s)
    } else {
        ended(s, i)
    }
}

/// The revision of a plugin is known: its early phase begins if it waited for that.
pub open spec fn rev_known(s: Sched, id: Seq<char>, rev: Revision) -> Reply {
    if s.node_of.contains_key(id) {
        let i = s.node_of[id];
        if 0 <= i < s.loading.nodes.len() && s.loading.nodes[i].phase == Phase::Waiting {
            Reply {
                s: Sched { loading: graph::in_phase(s.loading, i, Phase::Early), ..s },
                acts: seq![Act::StartEarly { key: KeyOf::Node(i), rev }],
            }
        } else {
            quiet(s)
        }
    } else if s.staging.contains_key(id) && s.staging[id] == StagedState::Pending {
        Reply {
            s: staged(s, id, StagedState::InFlight),
            acts: seq![Act::StartEarly { key: KeyOf::Staged(id), rev }],
        }
    } else {
        quiet(s)
    }
}

/// The revision of several plugins is known.
pub open spec fn revs_known(s: Sched, ids: Seq<Seq<char>>, rev: Revision) -> Reply
    decreases ids.len(),
{
    if ids.len() == 0 {
        quiet(s)
    } else {
        let r = revs_known(s, ids.drop_last(), rev);
        let next = rev_known(r.s, ids.last(), rev);
        Reply { s: next.s, acts: r.acts + next.acts }
    }
}

/// The revisions of repositories are known.
pub open spec fn repos_known(s: Sched, list: Seq<(Seq<char>, Option<Seq<char>>)>) -> Reply
    decreases list.len(),
{
    if list.len() == 0 {
        quiet(s)
    } else {
        let r = repos_known(s, list.drop_last());
        let canonical = list.last().0;
        let ids = lazy_registration::ids_at(r.s.waiting, canonical);
        let next = revs_known(
            Sched { waiting: r.s.waiting.remove(canonical), ..r.s },
            ids,
            Revision::Resolved(list.last().1),
        );
        Reply { s: next.s, acts: r.acts + next.acts }
    }
}

/// A chunk of revisions was resolved.
pub open spec fn on_chunk(s: Sched, list: Seq<(Seq<char>, Option<Seq<char>>)>) -> Reply {
    let r = repos_known(s, list);
    let done = Sched { resolved: r.s.resolved + list.len(), ..r.s };
    Reply {
        s: done,
        acts: r.acts + (if done.total > 0 && done.progress_sent {
            told(done)
        } else {
            Seq::empty()
        }),
    }
}

/// It was found out whether a plugin is installed.
pub open spec fn on_catalog(
    s: Sched,
    id: Seq<char>,
    canonical: Seq<char>,
    g: Github,
    installed: bool,
) -> Reply {
    if installed {
        batched(s, canonical, id, g)
    } else {
        rev_known(s, id, Revision::Resolved(None))
    }
}

/// The plugins among the first that still wait for a revision are given up to their repositories.
pub open spec fn rescued(s: Sched, n: nat) -> Reply
    decreases n,
{
    if n == 0 {
        quiet(s)
    } else {
        let r = rescued(s, (n - 1) as nat);
        if r.s.loading.nodes[n - 1].phase == Phase::Waiting {
            Reply {
                s: Sched { loading: graph::in_phase(r.s.loading, n - 1, Phase::Early), ..r.s },
                acts: r.acts.push(
                    Act::StartEarly { key: KeyOf::Node(n - 1), rev: Revision::Resolved(None) },
                ),
            }
        } else {
            r
        }
    }
}

/// All plugins are finished.
pub open spec fn all_finished(g: Loading) -> bool {
    forall|i: int| 0 <= i < g.nodes.len() ==> (#[trigger] g.nodes[i]).phase == Phase::Finished
}

/// All places are below a bound.
pub open spec fn places_ok(m: Map<Seq<char>, int>, n: nat) -> bool {
    forall|id: Seq<char>| #[trigger] m.contains_key(id) ==> 0 <= m[id] < n
}

impl Scheduler {
    /// All parts are well formed, and places are places of plugins.
    pub open spec fn wf(&self) -> bool {
        &&& self.seen_rev.wf()
        &&& self.staging.wf()
        &&& self.graph.wf()
        &&& self.node_of.wf()
        &&& self.waiting.wf()
        &&& places_ok(self@.node_of, self@.loading.nodes.len())
    }
}

proof fn lemma_seen_insert(
    before: SortedMap<String, Option<String>>,
    after: SortedMap<String, Option<String>>,
    k: Seq<char>,
    v: Option<String>,
)
    requires
        forall|x: Seq<char>| #[trigger] after.has(x) <==> before.has(x) || x == k,
        after.at(k) == v,
        forall|x: Seq<char>| x != k && #[trigger] before.has(x) ==> after.at(x) == before.at(x),
    ensures
        seen_map(after) == seen_map(before).insert(k, text::optional_string(v)),
{
    assert(seen_map(after) =~= seen_map(before).insert(k, text::optional_string(v)));
}

impl Scheduler {
    /// A scheduler that has seen nothing.
    pub fn new(settings: Settings) -> (s: Scheduler)
        ensures
            s.wf(),
            s@.settings == settings,
            s@.seen == Map::<Seq<char>, Option<Seq<char>>>::empty(),
            s@.staging == Map::<Seq<char>, StagedState>::empty(),
            s@.loading.nodes.len() == 0,
            s@.node_of == Map::<Seq<char>, int>::empty(),
            s@.waiting == Map::<Seq<char>, Seq<Seq<char>>>::empty(),
            s@.batch.len() == 0,
            s@.total == 0,
            s@.resolved == 0,
            !s@.progress_sent,
    {
        let none: Vec<String> = Vec::new();
        let nothing: Vec<Vec<String>> = Vec::new();
        let s = Scheduler {
            settings,
            seen_rev: SortedMap::new(),
            staging: SortedMap::new(),
            graph: Graph::new(&none, &nothing),
            node_of: SortedMap::new(),
            waiting: SortedMap::new(),
            batch: Vec::new(),
            graphql_total: 0,
            graphql_resolved: 0,
            progress_sent: false,
        };
        assert(s@.seen =~= Map::<Seq<char>, Option<Seq<char>>>::empty());
        assert(s@.staging =~= Map::<Seq<char>, StagedState>::empty());
        assert(s@.node_of =~= Map::<Seq<char>, int>::empty());
        assert(s@.waiting =~= Map::<Seq<char>, Seq<Seq<char>>>::empty());
        s
    }

    fn set_staged(&mut self, id: String, state: StagedState)
        requires
            old(self).wf(),
        ensures
            final(self).wf(),
            final(self)@ == staged(old(self)@, id@, state),
    {
        let ghost before = *self;
        let ghost k = id@;
        self.staging.insert(id, state);
        assert(self@.staging =~= before@.staging.insert(k, state));
        assert(self@ =~= staged(before@, k, state));
    }

    /// Notes the revision that a repository is asked for at.
    fn note(&mut self, request: &Option<RepoRequest>) -> (conflict: Option<Conflict>)
        requires
            old(self).wf(),
        ensures
            match conflict {
                Some(c) => {
                    let r = scheduler::request_view(*request);
                    &&& conflicts(old(self)@, r)
                    &&& c.canonical@ == r->0.canonical
                    &&& text::optional_string(c.rev_a) == old(self)@.seen[r->0.canonical]
                    &&& text::optional_string(c.rev_b) == r->0.rev
                    &&& *final(self) == *old(self)
                },
                None => {
                    let r = scheduler::request_view(*request);
                    &&& !conflicts(old(self)@, r)
                    &&& final(self).wf()
                    &&& final(self)@ == noted(old(self)@, r)
                },
            },
    {
        let ghost before = *self;
        let r = match request {
            Some(r) => r,
            None => {
                return None;
            },
        };
        match self.seen_rev.get(&r.canonical) {
            Some(existing) => {
                assert(self@.seen.contains_key(r.canonical@));
                let same = match (existing, &r.rev) {
                    (Some(a), Some(b)) => text::same(a.as_str(), b.as_str()),
                    (None, None) => true,
                    _ => false,
                };
                if same {
                    None
                } else {
                    Some(
                        Conflict {
                            canonical: r.canonical.clone(),
                            rev_a: same_rev(existing),
                            rev_b: same_rev(&r.rev),
                        },
                    )
                }
            },
            None => {
                assert(!self@.seen.contains_key(r.canonical@));
                let rev = same_rev(&r.rev);
                self.seen_rev.insert(r.canonical.clone(), rev);
                proof {
                    lemma_seen_insert(before.seen_rev, self.seen_rev, r.canonical@, rev);
                    assert(self@ =~= noted(before@, Some(r@)));
                }
                None
            },
        }
    }

    /// Puts a revision with those to resolve, and asks for full chunks.
    fn add_to_batch(&mut self, canonical: String, id: String, g: GithubRev, acts: &mut Vec<Action>)
        requires
            old(self).wf(),
            old(self)@.total < usize::MAX,
        ensures
            final(self).wf(),
            ({
                let r = batched(old(self)@, canonical@, id@, g@);
                &&& final(self)@ == r.s
                &&& scheduler::act_views(final(acts)@) == scheduler::act_views(old(acts)@) + r.acts
            }),
    {
        let ghost before = self@;
        let ghost raw = self.batch@;
        let ghost model = g@;
        let ghost name = id@;
        self.batch.push(g);
        proof {
            assert(scheduler::github_views(self.batch@) =~= scheduler::github_views(raw).push(model));
        }
        self.graphql_total = self.graphql_total + 1;
        let mut ids: Vec<String> = Vec::new();
        ids.push(id);
        assert(text::strings(ids@) =~= seq![name]);
        append_ids(&mut self.waiting, canonical, ids);
        flush_graphql_chunks(&mut self.batch, acts, false);
    }

    /// A plugin was read from the configuration.
    pub fn plugin_read(&mut self, id: String, request: Option<RepoRequest>) -> (reply: Result<
        Vec<Action>,
        Conflict,
    >)
        requires
            old(self).wf(),
            old(self)@.total < usize::MAX,
        ensures
            match reply {
                Ok(acts) => {
                    let r = on_plugin(old(self)@, id@, scheduler::request_view(request));
                    &&& !conflicts(old(self)@, scheduler::request_view(request))
                    &&& final(self).wf()
                    &&& final(self)@ == r.s
                    &&& scheduler::act_views(acts@) == r.acts
                },
                Err(c) => {
                    let r = scheduler::request_view(request);
                    &&& conflicts(old(self)@, r)
                    &&& c.canonical@ == r->0.canonical
                    &&& text::optional_string(c.rev_a) == old(self)@.seen[r->0.canonical]
                    &&& text::optional_string(c.rev_b) == r->0.rev
                    &&& *final(self) == *old(self)
                },
            },
    {
        let ghost before = self@;
        let ghost r = scheduler::request_view(request);
        if let Some(conflict) = self.note(&request) {
            return Err(conflict);
        }
        let ghost s1 = self@;
        let mut acts: Vec<Action> = Vec::new();
        assert(scheduler::act_views(acts@) =~= Seq::<Act>::empty());
        match plan_revision(&self.settings, &request) {
            RevPlan::Known(rev) => {
                let ghost known = rev@;
                acts.push(Action::StartEarly { key: EarlyKey::Staged(id.clone()), rev });
                self.set_staged(id, StagedState::InFlight);
                assert(scheduler::act_views(acts@) =~= on_plugin(before, id@, r).acts);
            },
            RevPlan::IfInstalled => {
                if let Some(RepoRequest { canonical, rev, github: Some((owner, repo)) }) = request {
                    acts.push(
                        Action::CheckCatalog {
                            id: id.clone(),
                            canonical,
                            owner,
                            repo,
                            wanted: rev,
                        },
                    );
                    assert(scheduler::act_views(acts@) =~= on_plugin(before, id@, r).acts);
                }
                self.set_staged(id, StagedState::Pending);
            },
            RevPlan::Resolve => {
                let ghost name = id@;
                if let Some(RepoRequest { canonical, rev, github: Some((owner, repo)) }) = request {
                    self.add_to_batch(
                        canonical,
                        id.clone(),
                        GithubRev { owner, repo, rev },
                        &mut acts,
                    );
                    assert(scheduler::act_views(acts@) =~= on_plugin(before, name, r).acts);
                }
                self.set_staged(id, StagedState::Pending);
            },
        }
        Ok(acts)
    }

    /// Finishes a plugin and begins what waited for it alone.
    fn end(&mut self, i: usize, acts: &mut Vec<Action>)
        requires
            old(self).wf(),
            i < old(self)@.loading.nodes.len(),
            old(self)@.loading.nodes[i as int].phase != Phase::Finished,
        ensures
            final(self).wf(),
            ({
                let r = ended(old(self)@, i as int);
                &&& final(self)@ == r.s
                &&& scheduler::act_views(final(acts)@) == scheduler::act_views(old(acts)@) + r.acts
            }),
    {
        let ghost before = self@;
        let ghost given = scheduler::act_views(acts@);
        let started = self.graph.finish(i);
        let ghost list = graph::numbers(started@);
        let ghost all = late_acts(list);
        let mut k: usize = 0;
        assert(given + all.take(0) =~= given);
        while k < started.len()
            invariant
                k <= started@.len(),
                list == graph::numbers(started@),
                all == late_acts(list),
                scheduler::act_views(acts@) == given + all.take(k as int),
            decreases started@.len() - k,
        {
            let ghost now = acts@;
            acts.push(Action::StartLate { node: started[k] });
            proof {
                assert(scheduler::act_views(acts@) =~= scheduler::act_views(now).push(
                    all[k as int],
                ));
                assert(given + all.take(k as int + 1) =~= (given + all.take(k as int)).push(
                    all[k as int],
                ));
            }
            k = k + 1;
        }
        assert(all.take(k as int) =~= all);
    }

    /// Gives a plugin that was read before its place.
    fn promote(&mut self, id: &String, i: usize, acts: &mut Vec<Action>)
        requires
            old(self).wf(),
            i < old(self)@.loading.nodes.len(),
            old(self)@.loading.nodes[i as int].phase == Phase::Waiting,
        ensures
            final(self).wf(),
            final(self)@.loading.nodes.len() == old(self)@.loading.nodes.len(),
            ({
                let r = promoted_one(old(self)@, id@, i as int);
                &&& final(self)@ == r.s
                &&& scheduler::act_views(final(acts)@) == scheduler::act_views(old(acts)@) + r.acts
            }),
    {
        let ghost before = *self;
        let ghost given = scheduler::act_views(acts@);
        let state = match self.staging.remove(id) {
            Some(state) => state,
            None => {
                proof {
                    assert(self@.staging =~= before@.staging);
                    assert(self@ =~= before@);
                    assert(given + Seq::<Act>::empty() =~= given);
                }
                return;
            },
        };
        let ghost between = self.node_of;
        self.node_of.insert(id.clone(), i);
        let ghost s1 = Sched {
            staging: before@.staging.remove(id@),
            node_of: before@.node_of.insert(id@, i as int),
            ..before@
        };
        proof {
            assert(self@.staging =~= s1.staging);
            assert(self@.node_of =~= s1.node_of);
            assert(self@ =~= s1);
            assert(before@.staging[id@] == state);
            assert(given + Seq::<Act>::empty() =~= given);
            assert forall|x: Seq<char>| #[trigger] self@.node_of.contains_key(x) implies 0
                <= self@.node_of[x] < self@.loading.nodes.len() by {
                if x != id@ {
                    assert(before@.node_of.contains_key(x));
                }
            }
        }
        match state {
            StagedState::Pending => {},
            StagedState::InFlight => {
                self.graph.set_early(i);
            },
            StagedState::Done(EarlyEnd::Ready) => {
                self.graph.set_ready(i);
            },
            StagedState::Done(_) => {
                let ghost now = acts@;
                acts.push(Action::Record { key: EarlyKey::Staged(id.clone()) });
                let ghost one = seq![Act::Record { key: KeyOf::Staged(id@) }];
                assert(scheduler::act_views(acts@) =~= given + one);
                self.end(i, acts);
                proof {
                    let r = ended(s1, i as int);
                    assert(given + one + r.acts =~= given + (one + r.acts));
                }
            },
        }
    }
}

/// In the states while plugins take their places, the plugins that have none yet wait.
proof fn lemma_promoted_waiting(s: Sched, ids: Seq<Seq<char>>, n: nat, i: int)
    requires
        graph::is_start(s.loading),
        s.loading.nodes.len() == ids.len(),
        n <= i < ids.len(),
    ensures
        promoted(s, ids, n).s.loading.nodes.len() == ids.len(),
        promoted(s, ids, n).s.loading.nodes[i].phase == Phase::Waiting,
    decreases n,
{
    if n > 0 {
        let r = promoted(s, ids, (n - 1) as nat);
        lemma_promoted_waiting(s, ids, (n - 1) as nat, i);
    }
}

impl Scheduler {
    /// Gives all plugins that were read before their places.
    fn promote_all(&mut self, ids: &Vec<String>, acts: &mut Vec<Action>)
        requires
            old(self).wf(),
            graph::is_start(old(self)@.loading),
            old(self)@.loading.nodes.len() == ids@.len(),
        ensures
            final(self).wf(),
            final(self)@.loading.nodes.len() == ids@.len(),
            ({
                let r = promoted(old(self)@, text::strings(ids@), ids@.len());
                &&& final(self)@ == r.s
                &&& scheduler::act_views(final(acts)@) == scheduler::act_views(old(acts)@) + r.acts
            }),
    {
        let ghost s0 = self@;
        let ghost names = text::strings(ids@);
        let ghost given = scheduler::act_views(acts@);
        let mut i: usize = 0;
        assert(given + Seq::<Act>::empty() =~= given);
        while i < ids.len()
            invariant
                i <= ids@.len(),
                names == text::strings(ids@),
                graph::is_start(s0.loading),
                s0.loading.nodes.len() == ids@.len(),
                self.wf(),
                self@ == promoted(s0, names, i as nat).s,
                self@.loading.nodes.len() == ids@.len(),
                scheduler::act_views(acts@) == given + promoted(s0, names, i as nat).acts,
            decreases ids@.len() - i,
        {
            proof {
                lemma_promoted_waiting(s0, names, i as nat, i as int);
                assert(names[i as int] == ids@[i as int]@);
            }
            let ghost r = promoted(s0, names, i as nat);
            self.promote(&ids[i], i, acts);
            proof {
                let next = promoted_one(r.s, names[i as int], i as int);
                assert(given + r.acts + next.acts =~= given + (r.acts + next.acts));
            }
            i = i + 1;
        }
    }

    /// Begins late phases where nothing holds them.
    fn sweep(&mut self, acts: &mut Vec<Action>)
        requires
            old(self).wf(),
        ensures
            final(self).wf(),
            ({
                let r = swept(old(self)@, old(self)@.loading.nodes.len());
                &&& final(self)@ == r.s
                &&& scheduler::act_views(final(acts)@) == scheduler::act_views(old(acts)@) + r.acts
            }),
    {
        let ghost s0 = self@;
        let ghost given = scheduler::act_views(acts@);
        let n: usize = self.graph.nodes.len();
        let mut i: usize = 0;
        assert(given + Seq::<Act>::empty() =~= given);
        while i < n
            invariant
                i <= n,
                n == s0.loading.nodes.len(),
                self.wf(),
                self@ == swept(s0, i as nat).s,
                self@.loading.nodes.len() == n,
                scheduler::act_views(acts@) == given + swept(s0, i as nat).acts,
            decreases n - i,
        {
            let ghost r = swept(s0, i as nat);
            let ghost now = acts@;
            if self.graph.start_late(i) {
                acts.push(Action::StartLate { node: i });
                proof {
                    let one = Act::StartLate { node: i as int };
                    assert(scheduler::act_views(acts@) =~= scheduler::act_views(now).push(one));
                    assert(given + r.acts.push(one) =~= (given + r.acts).push(one));
                }
            }
            i = i + 1;
        }
    }

    /// All configuration is read.
    pub fn parsed(&mut self, ids: &Vec<String>, depends: &Vec<Vec<String>>) -> (acts: Vec<Action>)
        requires
            old(self).wf(),
            ids@.len() == depends@.len(),
            old(self)@.node_of == Map::<Seq<char>, int>::empty(),
        ensures
            final(self).wf(),
            exists|g: Loading| #[trigger]
                graph::is_start(g) && g.nodes.len() == ids@.len() && graph::depends_by_name(
                    g,
                    text::strings(ids@),
                    depends@.map_values(|l: Vec<String>| text::strings(l@)),
                ) && ({
                    let r = on_parsed(old(self)@, g, text::strings(ids@));
                    &&& final(self)@ == r.s
                    &&& scheduler::act_views(acts@) == r.acts
                }),
    {
        let ghost before = self@;
        let ghost names = text::strings(ids@);
        let mut acts: Vec<Action> = Vec::new();
        self.graph = Graph::new(ids, depends);
        let ghost g = self.graph@;
        proof {
            assert(self@ =~= Sched { loading: g, ..before });
            assert(scheduler::act_views(acts@) =~= Seq::<Act>::empty());
        }
        self.promote_all(ids, &mut acts);
        let ghost a = promoted(Sched { loading: g, ..before }, names, names.len());
        assert(Seq::<Act>::empty() + a.acts =~= a.acts);
        flush_graphql_chunks(&mut self.batch, &mut acts, true);
        let ghost b = Sched { batch: scheduler::left_over(a.s.batch, true), ..a.s };
        let ghost asked = scheduler::resolve_acts(scheduler::chunks(a.s.batch, true));
        assert(self@ =~= b);
        let tell = self.graphql_total > 0 && !self.progress_sent;
        let ghost listed = acts@;
        if tell {
            acts.push(
                Action::Progress { resolved: self.graphql_resolved, total: self.graphql_total },
            );
            self.progress_sent = true;
        }
        let ghost c = Sched { progress_sent: b.progress_sent || tell, ..b };
        let ghost tail = if tell {
            told(b)
        } else {
            Seq::empty()
        };
        proof {
            assert(self@ =~= c);
            assert(scheduler::act_views(acts@) =~= a.acts + asked + tail);
        }
        self.sweep(&mut acts);
        acts
    }

    fn end_early(&mut self, key: EarlyKey, i: usize, end: EarlyEnd, acts: &mut Vec<Action>)
        requires
            old(self).wf(),
        ensures
            final(self).wf(),
            ({
                let r = early_ended(old(self)@, key@, i as int, end);
                &&& final(self)@ == r.s
                &&& scheduler::act_views(final(acts)@) == scheduler::act_views(old(acts)@) + r.acts
            }),
    {
        let ghost before = self@;
        let ghost given = scheduler::act_views(acts@);
        let ghost k = key@;
        assert(given + Seq::<Act>::empty() =~= given);
        if i >= self.graph.nodes.len() {
            return;
        }
        assert(self@.loading.nodes[i as int] == self.graph.nodes@[i as int]@);
        if self.graph.nodes[i].phase != Phase::Early {
            return;
        }
        if end == EarlyEnd::Ready {
            self.graph.set_ready(i);
            let ghost now = acts@;
            if self.graph.start_late(i) {
                acts.push(Action::StartLate { node: i });
                assert(scheduler::act_views(acts@) =~= given + seq![
                    Act::StartLate { node: i as int },
                ]);
            }
        } else {
            acts.push(Action::Record { key });
            let ghost one = seq![Act::Record { key: k }];
            assert(scheduler::act_views(acts@) =~= given + one);
            self.end(i, acts);
            proof {
                let r = ended(before, i as int);
                assert(given + one + r.acts =~= given + (one + r.acts));
            }
        }
    }

    /// An early phase ended.
    pub fn early_done(&mut self, key: EarlyKey, end: EarlyEnd) -> (acts: Vec<Action>)
        requires
            old(self).wf(),
        ensures
            final(self).wf(),
            ({
                let r = on_early(old(self)@, key@, end);
                &&& final(self)@ == r.s
                &&& scheduler::act_views(acts@) == r.acts
            }),
    {
        let ghost before = self@;
        let ghost k = key@;
        let mut acts: Vec<Action> = Vec::new();
        assert(scheduler::act_views(acts@) =~= Seq::<Act>::empty());
        let place = match &key {
            EarlyKey::Node(i) => Some(*i),
            EarlyKey::Staged(id) => match self.node_of.get(id) {
                Some(i) => {
                    assert(self@.node_of.contains_key(id@));
                    Some(*i)
                },
                None => {
                    assert(!self@.node_of.contains_key(id@));
                    None
                },
            },
        };
        match place {
            Some(i) => {
                self.end_early(key, i, end, &mut acts);
                proof {
                    let r = early_ended(before, k, i as int, end);
                    assert(Seq::<Act>::empty() + r.acts =~= r.acts);
                }
            },
            None => {
                if let EarlyKey::Staged(id) = key {
                    let known = self.staging.contains(&id);
                    assert(known == self@.staging.contains_key(id@));
                    if known {
                        self.set_staged(id, StagedState::Done(end));
                    }
                }
            },
        }
        acts
    }

    /// A late phase ended.
    pub fn late_done(&mut self, i: usize) -> (acts: Vec<Action>)
        requires
            old(self).wf(),
        ensures
            final(self).wf(),
            ({
                let r = on_late(old(self)@, i as int);
                &&& final(self)@ == r.s
                &&& scheduler::act_views(acts@) == r.acts
            }),
    {
        let ghost before = self@;
        let mut acts: Vec<Action> = Vec::new();
        assert(scheduler::act_views(acts@) =~= Seq::<Act>::empty());
        if i < self.graph.nodes.len() {
            assert(self@.loading.nodes[i as int] == self.graph.nodes@[i as int]@);
            if self.graph.nodes[i].phase == Phase::Late {
                self.end(i, &mut acts);
                proof {
                    let r = ended(before, i as int);
                    assert(Seq::<Act>::empty() + r.acts =~= r.acts);
                }
            }
        }
        acts
    }

    /// Begins an early phase that waited for a revision.
    fn give_rev(&mut self, id: &String, rev: Rev, acts: &mut Vec<Action>)
        requires
            old(self).wf(),
        ensures
            final(self).wf(),
            ({
                let r = rev_known(old(self)@, id@, rev@);
                &&& final(self)@ == r.s
                &&& scheduler::act_views(final(acts)@) == scheduler::act_views(old(acts)@) + r.acts
            }),
    {
        let ghost before = self@;
        let ghost given = scheduler::act_views(acts@);
        let ghost known = rev@;
        assert(given + Seq::<Act>::empty() =~= given);
        let place = match self.node_of.get(id) {
            Some(i) => {
                assert(self@.node_of.contains_key(id@));
                Some(*i)
            },
            None => {
                assert(!self@.node_of.contains_key(id@));
                None
            },
        };
        match place {
            Some(i) => {
                if self.graph.start_early(i) {
                    acts.push(Action::StartEarly { key: EarlyKey::Node(i), rev });
                    assert(scheduler::act_views(acts@) =~= given + seq![
                        Act::StartEarly { key: KeyOf::Node(i as int), rev: known },
                    ]);
                }
            },
            None => {
                let pending = match self.staging.get(id) {
                    Some(state) => {
                        assert(self@.staging.contains_key(id@));
                        *state == StagedState::Pending
                    },
                    None => {
                        assert(!self@.staging.contains_key(id@));
                        false
                    },
                };
                if pending {
                    self.set_staged(id.clone(), StagedState::InFlight);
                    acts.push(Action::StartEarly { key: EarlyKey::Staged(id.clone()), rev });
                    assert(scheduler::act_views(acts@) =~= given + seq![
                        Act::StartEarly { key: KeyOf::Staged(id@), rev: known },
                    ]);
                }
            },
        }
    }

    fn give_revs(&mut self, ids: &Vec<String>, rev: &Option<String>, acts: &mut Vec<Action>)
        requires
            old(self).wf(),
        ensures
            final(self).wf(),
            ({
                let r = revs_known(
                    old(self)@,
                    text::strings(ids@),
                    Revision::Resolved(text::optional_string(*rev)),
                );
                &&& final(self)@ == r.s
                &&& scheduler::act_views(final(acts)@) == scheduler::act_views(old(acts)@) + r.acts
            }),
    {
        let ghost s0 = self@;
        let ghost names = text::strings(ids@);
        let ghost known = Revision::Resolved(text::optional_string(*rev));
        let ghost given = scheduler::act_views(acts@);
        let mut i: usize = 0;
        proof {
            assert(names.take(0) =~= Seq::<Seq<char>>::empty());
            assert(given + Seq::<Act>::empty() =~= given);
        }
        while i < ids.len()
            invariant
                i <= ids@.len(),
                names == text::strings(ids@),
                known == Revision::Resolved(text::optional_string(*rev)),
                self.wf(),
                self@ == revs_known(s0, names.take(i as int), known).s,
                scheduler::act_views(acts@) == given + revs_known(
                    s0,
                    names.take(i as int),
                    known,
                ).acts,
            decreases ids@.len() - i,
        {
            let ghost r = revs_known(s0, names.take(i as int), known);
            proof {
                assert(names.take(i as int + 1).drop_last() =~= names.take(i as int));
                assert(names.take(i as int + 1).last() == ids@[i as int]@);
            }
            self.give_rev(&ids[i], Rev::Resolved(same_rev(rev)), acts);
            proof {
                let next = rev_known(r.s, ids@[i as int]@, known);
                assert(given + r.acts + next.acts =~= given + (r.acts + next.acts));
            }
            i = i + 1;
        }
        assert(names.take(i as int) =~= names);
    }

    /// A chunk of revisions was resolved: those of the listed repositories.  A missing revision
    /// has to be found in the repository.
    pub fn chunk_done(&mut self, list: &Vec<(String, Option<String>)>) -> (acts: Vec<Action>)
        requires
            old(self).wf(),
            old(self)@.resolved + list@.len() <= usize::MAX,
        ensures
            final(self).wf(),
            ({
                let r = on_chunk(
                    old(self)@,
                    list@.map_values(
                        |e: (String, Option<String>)| (e.0@, text::optional_string(e.1)),
                    ),
                );
                &&& final(self)@ == r.s
                &&& scheduler::act_views(acts@) == r.acts
            }),
    {
        let ghost s0 = self@;
        let ghost all = list@.map_values(
            |e: (String, Option<String>)| (e.0@, text::optional_string(e.1)),
        );
        let mut acts: Vec<Action> = Vec::new();
        let mut i: usize = 0;
        proof {
            assert(all.take(0) =~= Seq::<(Seq<char>, Option<Seq<char>>)>::empty());
            assert(scheduler::act_views(acts@) =~= Seq::<Act>::empty());
        }
        while i < list.len()
            invariant
                i <= list@.len(),
                all == list@.map_values(
                    |e: (String, Option<String>)| (e.0@, text::optional_string(e.1)),
                ),
                self.wf(),
                self@ == repos_known(s0, all.take(i as int)).s,
                self@.resolved == s0.resolved,
                scheduler::act_views(acts@) == repos_known(s0, all.take(i as int)).acts,
            decreases list@.len() - i,
        {
            let ghost r = repos_known(s0, all.take(i as int));
            let ghost before = *self;
            proof {
                assert(all.take(i as int + 1).drop_last() =~= all.take(i as int));
                assert(all.take(i as int + 1).last() == all[i as int]);
            }
            let ids = match self.waiting.remove(&list[i].0) {
                Some(ids) => ids,
                None => Vec::new(),
            };
            let ghost canonical = list@[i as int].0@;
            let ghost s1 = Sched { waiting: r.s.waiting.remove(canonical), ..r.s };
            proof {
                assert(text::strings(ids@) =~= lazy_registration::ids_at(r.s.waiting, canonical));
                assert(self@.waiting =~= s1.waiting);
                assert(self@ =~= s1);
            }
            self.give_revs(&ids, &list[i].1, &mut acts);
            proof {
                lemma_resolved_kept(
                    s1,
                    text::strings(ids@),
                    Revision::Resolved(text::optional_string(list@[i as int].1)),
                );
            }
            i = i + 1;
        }
        assert(all.take(i as int) =~= all);
        let ghost r = repos_known(s0, all);
        self.graphql_resolved = self.graphql_resolved + list.len();
        if self.graphql_total > 0 && self.progress_sent {
            acts.push(
                Action::Progress { resolved: self.graphql_resolved, total: self.graphql_total },
            );
            assert(scheduler::act_views(acts@) =~= r.acts + told(self@));
        } else {
            assert(r.acts + Seq::<Act>::empty() =~= r.acts);
        }
        acts
    }

    /// It was found out whether a plugin is installed.
    pub fn catalog_done(&mut self, id: String, canonical: String, g: GithubRev, installed: bool) -> (acts:
        Vec<Action>)
        requires
            old(self).wf(),
            old(self)@.total < usize::MAX,
        ensures
            final(self).wf(),
            ({
                let r = on_catalog(old(self)@, id@, canonical@, g@, installed);
                &&& final(self)@ == r.s
                &&& scheduler::act_views(acts@) == r.acts
            }),
    {
        let ghost r = on_catalog(self@, id@, canonical@, g@, installed);
        let mut acts: Vec<Action> = Vec::new();
        assert(scheduler::act_views(acts@) =~= Seq::<Act>::empty());
        assert(Seq::<Act>::empty() + r.acts =~= r.acts);
        if installed {
            self.add_to_batch(canonical, id, g, &mut acts);
        } else {
            self.give_rev(&id, Rev::Resolved(None), &mut acts);
        }
        acts
    }

    /// Nothing goes on any more.  Plugins that still wait for a revision are given up to their
    /// repositories; if there are none, all plugins are finished, or something is stuck.
    pub fn nothing_left(&mut self) -> (reply: Result<Vec<Action>, StuckError>)
        requires
            old(self).wf(),
        ensures
            final(self).wf(),
            reply is Err ==> final(self)@ == old(self)@,
            ({
                let r = rescued(old(self)@, old(self)@.loading.nodes.len());
                match reply {
                    Ok(acts) => {
                        &&& forall|id: Seq<char>| !#[trigger] old(self)@.staging.contains_key(id)
                        &&& final(self)@ == r.s
                        &&& scheduler::act_views(acts@) == r.acts
                        &&& r.acts.len() == 0 ==> all_finished(old(self)@.loading)
                    },
                    Err(StuckError::Unpromoted) => exists|id: Seq<char>| #[trigger]
                        old(self)@.staging.contains_key(id),
                    Err(StuckError::Deadlock) => {
                        &&& forall|id: Seq<char>| !#[trigger] old(self)@.staging.contains_key(id)
                        &&& r.acts.len() == 0
                        &&& !all_finished(old(self)@.loading)
                    },
                }
            }),
    {
        let ghost s0 = self@;
        if !self.staging.is_empty() {
            proof {
                let k = self.staging.keys()[0];
                assert(self.staging.keys().contains(k));
                assert(self@.staging.contains_key(k));
            }
            return Err(StuckError::Unpromoted);
        }
        assert forall|id: Seq<char>| !#[trigger] s0.staging.contains_key(id) by {
            assert(!self.staging.has(id));
        }
        let mut acts: Vec<Action> = Vec::new();
        let n: usize = self.graph.nodes.len();
        let mut i: usize = 0;
        assert(scheduler::act_views(acts@) =~= Seq::<Act>::empty());
        while i < n
            invariant
                i <= n,
                n == s0.loading.nodes.len(),
                self.wf(),
                self@ == rescued(s0, i as nat).s,
                self@.loading.nodes.len() == n,
                scheduler::act_views(acts@) == rescued(s0, i as nat).acts,
                acts@.len() == 0 ==> self@ == s0,
            decreases n - i,
        {
            let ghost r = rescued(s0, i as nat);
            let ghost now = acts@;
            if self.graph.start_early(i) {
                acts.push(
                    Action::StartEarly { key: EarlyKey::Node(i), rev: Rev::Resolved(None) },
                );
                proof {
                    let one = Act::StartEarly {
                        key: KeyOf::Node(i as int),
                        rev: Revision::Resolved(None),
                    };
                    assert(scheduler::act_views(acts@) =~= scheduler::act_views(now).push(one));
                }
            }
            i = i + 1;
        }
        if acts.len() == 0 {
            assert(scheduler::act_views(acts@).len() == 0);
            let mut j: usize = 0;
            while j < n
                invariant
                    j <= n,
                    n == s0.loading.nodes.len(),
                    s0 == old(self)@,
                    self.wf(),
                    self@ == s0,
                    rescued(s0, n as nat).acts.len() == 0,
                    forall|id: Seq<char>| !#[trigger] s0.staging.contains_key(id),
                    forall|k: int|
                        0 <= k < j ==> (#[trigger] s0.loading.nodes[k]).phase == Phase::Finished,
                decreases n - j,
            {
                assert(s0.loading.nodes[j as int] == self.graph.nodes@[j as int]@);
                if self.graph.nodes[j].phase != Phase::Finished {
                    return Err(StuckError::Deadlock);
                }
                j = j + 1;
            }
        }
        Ok(acts)
    }
}

proof fn lemma_resolved_kept(s: Sched, ids: Seq<Seq<char>>, rev: Revision)
    ensures
        revs_known(s, ids, rev).s.resolved == s.resolved,
    decreases ids.len(),
{
    if ids.len() > 0 {
        lemma_resolved_kept(s, ids.drop_last(), rev);
    }
}

} // verus!
