//! The scheduler: what is to be done when, while plugins are loaded.
//!
//! The scheduler takes events (a plugin was read from the configuration, a phase of a plugin is
//! over, revisions were resolved) and answers with what is to be done next.  It does nothing
//! itself.

use crate::text;
use vstd::prelude::*;

pub mod course;
pub mod gather;
pub mod graph;
pub mod laws;
pub mod machine;
pub mod outcome;
pub mod placing;
pub mod planning;
pub mod reading;
pub mod results;

verus! {

/// How many revisions are resolved in one request.
pub const CHUNK: usize = 25;

/// The revision that a plugin is loaded at.
#[derive(Debug)]
pub enum Rev {
    /// That of the lock file, or none in particular.
    Auto,
    /// A resolved one; nothing if it has to be found in the repository.
    Resolved(Option<String>),
}

/// What a revision is, mathematically.
pub enum Revision {
    Auto,
    Resolved(Option<Seq<char>>),
}

impl View for Rev {
    type V = Revision;

    open spec fn view(&self) -> Revision {
        match self {
            Rev::Auto => Revision::Auto,
            Rev::Resolved(rev) => Revision::Resolved(text::optional_string(*rev)),
        }
    }
}

/// What an early phase is known by: before all configuration is read a name, then a place.
#[derive(Debug)]
pub enum EarlyKey {
    Node(usize),
    Staged(String),
}

/// What a key is, mathematically.
pub enum KeyOf {
    Node(int),
    Staged(Seq<char>),
}

impl View for EarlyKey {
    type V = KeyOf;

    open spec fn view(&self) -> KeyOf {
        match self {
            EarlyKey::Node(i) => KeyOf::Node(*i as int),
            EarlyKey::Staged(id) => KeyOf::Staged(id@),
        }
    }
}

/// How an early phase ended.
#[derive(Clone, Copy, Debug, PartialEq, Eq, Structural)]
pub enum EarlyEnd {
    Failed,
    /// The plugin is left out.
    Skipped,
    /// The late phase may follow.
    Ready,
}

/// How far a plugin is before all configuration is read.
#[derive(Clone, Copy, Debug, PartialEq, Eq, Structural)]
pub enum StagedState {
    /// It waits for a revision.
    Pending,
    /// Its early phase goes on.
    InFlight,
    /// Its early phase is over.
    Done(EarlyEnd),
}

/// A revision to resolve.
#[derive(Debug)]
pub struct GithubRev {
    pub owner: String,
    pub repo: String,
    pub rev: Option<String>,
}

/// What a revision to resolve is, mathematically.
pub struct Github {
    pub owner: Seq<char>,
    pub repo: Seq<char>,
    pub rev: Option<Seq<char>>,
}

impl View for GithubRev {
    type V = Github;

    open spec fn view(&self) -> Github {
        Github { owner: self.owner@, repo: self.repo@, rev: text::optional_string(self.rev) }
    }
}

pub open spec fn github_views(list: Seq<GithubRev>) -> Seq<Github> {
    list.map_values(|g: GithubRev| g@)
}

/// What is to be done.
#[derive(Debug)]
pub enum Action {
    /// Begin an early phase.
    StartEarly { key: EarlyKey, rev: Rev },
    /// Begin a late phase.
    StartLate { node: usize },
    /// Count the end of an early phase as the result of the plugin.
    Record { key: EarlyKey },
    /// Resolve revisions.
    Resolve { chunk: Vec<GithubRev> },
    /// Find out whether the plugin is installed.
    CheckCatalog {
        id: String,
        canonical: String,
        owner: String,
        repo: String,
        wanted: Option<String>,
    },
    /// Tell how many revisions are resolved.
    Progress { resolved: usize, total: usize },
}

/// What an action is, mathematically.
pub enum Act {
    StartEarly { key: KeyOf, rev: Revision },
    StartLate { node: int },
    Record { key: KeyOf },
    Resolve { chunk: Seq<Github> },
    CheckCatalog {
        id: Seq<char>,
        canonical: Seq<char>,
        owner: Seq<char>,
        repo: Seq<char>,
        wanted: Option<Seq<char>>,
    },
    Progress { resolved: int, total: int },
}

impl View for Action {
    type V = Act;

    open spec fn view(&self) -> Act {
        match self {
            Action::StartEarly { key, rev } => Act::StartEarly { key: key@, rev: rev@ },
            Action::StartLate { node } => Act::StartLate { node: *node as int },
            Action::Record { key } => Act::Record { key: key@ },
            Action::Resolve { chunk } => Act::Resolve { chunk: github_views(chunk@) },
            Action::CheckCatalog { id, canonical, owner, repo, wanted } => Act::CheckCatalog {
                id: id@,
                canonical: canonical@,
                owner: owner@,
                repo: repo@,
                wanted: text::optional_string(*wanted),
            },
            Action::Progress { resolved, total } => Act::Progress {
                resolved: *resolved as int,
                total: *total as int,
            },
        }
    }
}

pub open spec fn act_views(list: Seq<Action>) -> Seq<Act> {
    list.map_values(|a: Action| a@)
}

/// What a plugin's entry says of its repository.
#[derive(Debug)]
pub struct RepoRequest {
    pub canonical: String,
    pub rev: Option<String>,
    /// The owner and the name, if the repository is reached at GitHub by `https`.
    pub github: Option<(String, String)>,
}

/// What a request is, mathematically.
pub struct Request {
    pub canonical: Seq<char>,
    pub rev: Option<Seq<char>>,
    pub github: Option<(Seq<char>, Seq<char>)>,
}

impl View for RepoRequest {
    type V = Request;

    open spec fn view(&self) -> Request {
        Request {
            canonical: self.canonical@,
            rev: text::optional_string(self.rev),
            github: match self.github {
                Some(pair) => Some((pair.0@, pair.1@)),
                None => None,
            },
        }
    }
}

/// How a run is to go.
#[derive(Clone, Copy, Debug, PartialEq, Eq, Structural)]
pub struct Settings {
    /// Revisions come from the lock file.
    pub locked: bool,
    /// Repositories are updated.
    pub update: bool,
    /// Revisions can be resolved many at a time.
    pub do_graphql: bool,
}

/// A full commit hash: 40 hexadecimal digits.
pub open spec fn is_full_hash(rev: Seq<char>) -> bool {
    rev.len() == 40 && forall|i: int|
        0 <= i < rev.len() ==> crate::generation::hex_digit(#[trigger] rev[i])
}

/// Whether a revision is a full commit hash.
pub fn is_full_hex_hash(rev: &str) -> (is: bool)
    ensures
        is == is_full_hash(rev@),
{
    let chars = text::chars_of(rev);
    if chars.len() != 40 {
        return false;
    }
    let mut i: usize = 0;
    while i < chars.len()
        invariant
            i <= chars@.len(),
            chars@ == rev@,
            forall|k: int| 0 <= k < i ==> crate::generation::hex_digit(#[trigger] chars@[k]),
        decreases chars@.len() - i,
    {
        let c: char = chars[i];
        let hex = ('0' <= c && c <= '9') || ('a' <= c && c <= 'f') || ('A' <= c && c <= 'F');
        if !hex {
            assert(!crate::generation::hex_digit(chars@[i as int]));
            return false;
        }
        i = i + 1;
    }
    true
}

/// How the revision of a plugin is found.
#[derive(Debug)]
pub enum RevPlan {
    /// It is known.
    Known(Rev),
    /// It is resolved with others if the plugin is installed.
    IfInstalled,
    /// It is resolved with others.
    Resolve,
}

/// What a plan is, mathematically.
pub enum Plan {
    Known(Revision),
    IfInstalled,
    Resolve,
}

impl View for RevPlan {
    type V = Plan;

    open spec fn view(&self) -> Plan {
        match self {
            RevPlan::Known(rev) => Plan::Known(rev@),
            RevPlan::IfInstalled => Plan::IfInstalled,
            RevPlan::Resolve => Plan::Resolve,
        }
    }
}

/// How the revision of a plugin is found: a plugin without repository, a locked run and one that
/// cannot resolve many at a time have nothing to resolve; a full hash is as good as resolved; what
/// is at GitHub and names no pattern is resolved with others; all else is found in the repository.
pub open spec fn plan_for(settings: Settings, request: Option<Request>) -> Plan {
    match request {
        None => Plan::Known(Revision::Auto),
        Some(r) => if settings.locked || !settings.do_graphql {
            Plan::Known(Revision::Auto)
        } else if r.rev is Some && is_full_hash(r.rev->0) {
            Plan::Known(Revision::Resolved(r.rev))
        } else if r.github is Some && !(r.rev is Some && r.rev->0.contains('*')) {
            if settings.update {
                Plan::IfInstalled
            } else {
                Plan::Resolve
            }
        } else {
            Plan::Known(Revision::Resolved(None))
        },
    }
}

/// What an optional request is.
pub open spec fn request_view(request: Option<RepoRequest>) -> Option<Request> {
    match request {
        Some(r) => Some(r@),
        None => None,
    }
}

fn has_star(s: &str) -> (found: bool)
    ensures
        found == s@.contains('*'),
{
    let chars = text::chars_of(s);
    let mut i: usize = 0;
    while i < chars.len()
        invariant
            i <= chars@.len(),
            chars@ == s@,
            forall|k: int| 0 <= k < i ==> #[trigger] chars@[k] != '*',
        decreases chars@.len() - i,
    {
        if chars[i] == '*' {
            assert(s@[i as int] == '*');
            return true;
        }
        i = i + 1;
    }
    false
}

pub(crate) fn same_rev(rev: &Option<String>) -> (copy: Option<String>)
    ensures
        text::optional_string(copy) == text::optional_string(*rev),
{
    match rev {
        Some(s) => Some(s.clone()),
        None => None,
    }
}

/// How the revision of a plugin is found.
pub fn plan_revision(settings: &Settings, request: &Option<RepoRequest>) -> (plan: RevPlan)
    ensures
        plan@ == plan_for(*settings, request_view(*request)),
{
    let r = match request {
        Some(r) => r,
        None => {
            return RevPlan::Known(Rev::Auto);
        },
    };
    if settings.locked || !settings.do_graphql {
        return RevPlan::Known(Rev::Auto);
    }
    let mut pattern = false;
    if let Some(rev) = &r.rev {
        if is_full_hex_hash(rev.as_str()) {
            return RevPlan::Known(Rev::Resolved(Some(rev.clone())));
        }
        pattern = has_star(rev.as_str());
    }
    if r.github.is_some() && !pattern {
        if settings.update {
            RevPlan::IfInstalled
        } else {
            RevPlan::Resolve
        }
    } else {
        RevPlan::Known(Rev::Resolved(None))
    }
}

/// Full chunks, and the rest too if everything is taken.
pub open spec fn chunks(batch: Seq<Github>, all: bool) -> Seq<Seq<Github>>
    decreases batch.len(),
{
    if batch.len() >= CHUNK {
        seq![batch.take(CHUNK as int)] + chunks(batch.skip(CHUNK as int), all)
    } else if all && batch.len() > 0 {
        seq![batch]
    } else {
        Seq::empty()
    }
}

/// What is left when chunks are taken.
pub open spec fn left_over(batch: Seq<Github>, all: bool) -> Seq<Github>
    decreases batch.len(),
{
    if batch.len() >= CHUNK {
        left_over(batch.skip(CHUNK as int), all)
    } else if all {
        Seq::empty()
    } else {
        batch
    }
}

/// All chunks one behind the other.
pub open spec fn in_all(list: Seq<Seq<Github>>) -> Seq<Github>
    decreases list.len(),
{
    if list.len() == 0 {
        Seq::empty()
    } else {
        list[0] + in_all(list.skip(1))
    }
}

/// Taking chunks loses nothing and keeps the order, and no chunk is too large.  When everything is
/// taken nothing is left.
pub proof fn law_chunks(batch: Seq<Github>, all: bool)
    ensures
        in_all(chunks(batch, all)) + left_over(batch, all) == batch,
        forall|i: int|
            0 <= i < chunks(batch, all).len() ==> 0 < (#[trigger] chunks(batch, all)[i]).len()
                <= CHUNK,
        all ==> left_over(batch, all).len() == 0,
        left_over(batch, all).len() < CHUNK,
    decreases batch.len(),
{
    let list = chunks(batch, all);
    if batch.len() >= CHUNK {
        let rest = batch.skip(CHUNK as int);
        law_chunks(rest, all);
        assert(list[0] == batch.take(CHUNK as int));
        assert(list.skip(1) =~= chunks(rest, all));
        assert(in_all(list) + left_over(batch, all) =~= batch.take(CHUNK as int) + (in_all(
            chunks(rest, all),
        ) + left_over(rest, all)));
        assert(batch.take(CHUNK as int) + rest =~= batch);
        assert forall|i: int| 0 <= i < list.len() implies 0 < (#[trigger] list[i]).len()
            <= CHUNK by {
            if i > 0 {
                assert(list[i] == chunks(rest, all)[i - 1]);
            }
        }
    } else if all && batch.len() > 0 {
        assert(list.skip(1) =~= Seq::<Seq<Github>>::empty());
        assert(in_all(list.skip(1)) =~= Seq::<Github>::empty());
        assert(in_all(list) + left_over(batch, all) =~= batch);
    } else {
        assert(in_all(list) + left_over(batch, all) =~= batch);
    }
}

/// The requests for the chunks.
pub open spec fn resolve_acts(list: Seq<Seq<Github>>) -> Seq<Act> {
    list.map_values(|chunk: Seq<Github>| Act::Resolve { chunk })
}

/// Takes chunks from the batch and asks for them.
pub(crate) fn flush_graphql_chunks(batch: &mut Vec<GithubRev>, acts: &mut Vec<Action>, all: bool)
    ensures
        github_views(final(batch)@) == left_over(github_views(old(batch)@), all),
        act_views(final(acts)@) == act_views(old(acts)@) + resolve_acts(
            chunks(github_views(old(batch)@), all),
        ),
{
    let ghost given = github_views(batch@);
    let ghost before = act_views(acts@);
    let ghost mut done: Seq<Seq<Github>> = Seq::empty();
    proof {
        assert(done + chunks(given, all) =~= chunks(given, all));
        assert(before + resolve_acts(done) =~= before);
    }
    while batch.len() >= CHUNK
        invariant
            left_over(github_views(batch@), all) == left_over(given, all),
            done + chunks(github_views(batch@), all) == chunks(given, all),
            act_views(acts@) == before + resolve_acts(done),
        decreases batch@.len(),
    {
        let ghost now = github_views(batch@);
        let ghost listed = acts@;
        let ghost raw = batch@;
        let mut rest = batch.split_off(CHUNK);
        std::mem::swap(batch, &mut rest);
        let ghost chunk = github_views(rest@);
        proof {
            assert(chunk =~= now.take(CHUNK as int));
            assert(github_views(batch@) =~= now.skip(CHUNK as int));
        }
        acts.push(Action::Resolve { chunk: rest });
        proof {
            let next = done.push(chunk);
            assert(act_views(acts@) =~= act_views(listed).push(Act::Resolve { chunk }));
            assert(resolve_acts(next) =~= resolve_acts(done).push(Act::Resolve { chunk }));
            assert(before + resolve_acts(next) =~= (before + resolve_acts(done)).push(
                Act::Resolve { chunk },
            ));
            assert(next + chunks(github_views(batch@), all) =~= done + chunks(now, all));
            done = next;
        }
    }
    if all && batch.len() > 0 {
        let ghost now = github_views(batch@);
        let ghost listed = acts@;
        let mut rest: Vec<GithubRev> = Vec::new();
        std::mem::swap(batch, &mut rest);
        acts.push(Action::Resolve { chunk: rest });
        proof {
            let next = done.push(now);
            assert(act_views(acts@) =~= act_views(listed).push(Act::Resolve { chunk: now }));
            assert(resolve_acts(next) =~= resolve_acts(done).push(Act::Resolve { chunk: now }));
            assert(before + resolve_acts(next) =~= (before + resolve_acts(done)).push(
                Act::Resolve { chunk: now },
            ));
            assert(chunks(given, all) =~= next);
            assert(github_views(batch@) =~= Seq::<Github>::empty());
        }
    } else {
        proof {
            assert(chunks(github_views(batch@), all) =~= Seq::<Seq<Github>>::empty());
            assert(chunks(given, all) =~= done);
            if all {
                assert(github_views(batch@) =~= Seq::<Github>::empty());
            }
        }
    }
}

/// The canonical name of a repository at GitHub.
pub open spec fn github_canonical(owner: Seq<char>, repo: Seq<char>) -> Seq<char> {
    "github.com/"@ + owner + "/"@ + repo
}

/// A resolved revision.
#[derive(Debug)]
pub struct ResolvedRev {
    pub owner: String,
    pub repo: String,
    /// The commit; nothing if the revision was not found.
    pub oid: Option<String>,
}

/// Revisions that were resolved.
pub open spec fn resolved_views(list: Seq<ResolvedRev>) -> Seq<Github> {
    list.map_values(
        |r: ResolvedRev| Github { owner: r.owner@, repo: r.repo@, rev: text::optional_string(r.oid) },
    )
}

/// Revisions that were resolved, if the request did not fail.
pub open spec fn found_view(found: Option<Vec<ResolvedRev>>) -> Option<Seq<Github>> {
    match found {
        Some(list) => Some(resolved_views(list@)),
        None => None,
    }
}

/// The commit that was found for a repository.
pub open spec fn oid_of(found: Seq<Github>, owner: Seq<char>, repo: Seq<char>) -> Option<Seq<char>>
    decreases found.len(),
{
    if found.len() == 0 {
        None
    } else if found[0].owner == owner && found[0].repo == repo {
        found[0].rev
    } else {
        oid_of(found.skip(1), owner, repo)
    }
}

/// The repositories of a chunk with the commits that were found; without commits if the request
/// failed.
pub open spec fn answers(chunk: Seq<Github>, found: Option<Seq<Github>>) -> Seq<
    (Seq<char>, Option<Seq<char>>),
> {
    chunk.map_values(
        |g: Github|
            (
                github_canonical(g.owner, g.repo),
                match found {
                    Some(list) => oid_of(list, g.owner, g.repo),
                    None => None,
                },
            ),
    )
}

fn find_oid(found: &Vec<ResolvedRev>, owner: &str, repo: &str) -> (oid: Option<String>)
    ensures
        text::optional_string(oid) == oid_of(resolved_views(found@), owner@, repo@),
{
    let ghost all = resolved_views(found@);
    let mut i: usize = 0;
    assert(all.skip(0) =~= all);
    while i < found.len()
        invariant
            i <= found@.len(),
            all == resolved_views(found@),
            oid_of(all.skip(i as int), owner@, repo@) == oid_of(all, owner@, repo@),
        decreases found@.len() - i,
    {
        proof {
            assert(all.skip(i as int)[0] == all[i as int]);
            assert(all.skip(i as int).skip(1) =~= all.skip(i as int + 1));
        }
        if text::same(found[i].owner.as_str(), owner) && text::same(found[i].repo.as_str(), repo) {
            return same_rev(&found[i].oid);
        }
        i = i + 1;
    }
    None
}

/// What is known of the repositories of a chunk once the request for it is over; `found` is
/// nothing if it failed.
pub fn chunk_answers(chunk: &Vec<GithubRev>, found: &Option<Vec<ResolvedRev>>) -> (list: Vec<
    (String, Option<String>),
>)
    ensures
        list@.map_values(|e: (String, Option<String>)| (e.0@, text::optional_string(e.1)))
            == answers(github_views(chunk@), found_view(*found)),
{
    let ghost wanted = answers(github_views(chunk@), found_view(*found));
    let mut list: Vec<(String, Option<String>)> = Vec::new();
    let mut i: usize = 0;
    while i < chunk.len()
        invariant
            i <= chunk@.len(),
            list@.len() == i,
            wanted == answers(github_views(chunk@), found_view(*found)),
            forall|k: int|
                0 <= k < i ==> ((#[trigger] list@[k]).0@, text::optional_string(list@[k].1))
                    == wanted[k],
        decreases chunk@.len() - i,
    {
        let g = &chunk[i];
        let mut canonical = String::from_str("github.com/");
        canonical.append(g.owner.as_str());
        canonical.append("/");
        canonical.append(g.repo.as_str());
        let oid = match found {
            Some(found) => find_oid(found, g.owner.as_str(), g.repo.as_str()),
            None => None,
        };
        assert((canonical@, text::optional_string(oid)) == wanted[i as int]);
        list.push((canonical, oid));
        i = i + 1;
    }
    assert(list@.map_values(|e: (String, Option<String>)| (e.0@, text::optional_string(e.1)))
        =~= wanted);
    list
}

} // verus!
