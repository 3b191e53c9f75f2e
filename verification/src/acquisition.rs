//! How the objects of a repository are acquired, and how its snapshot is made and built.

use crate::text;
use vstd::prelude::*;

pub mod laws;

verus! {

/// What a run may do.
#[derive(Clone, Copy, Debug, PartialEq, Eq, Structural)]
pub struct Mode {
    pub install: bool,
    pub update: bool,
    pub locked: bool,
}

/// Revisions at GitHub are resolved many at a time.
pub open spec fn asks_together(mode: Mode, has_token: bool) -> bool {
    !mode.locked && mode.may_ask() && has_token
}

/// A snapshot is made from an archive.
pub open spec fn takes_archive(mode: Mode, at_github: bool, dotgit: bool) -> bool {
    at_github && !dotgit && mode.may_ask()
}

impl Mode {
    /// Whether repositories are asked for revisions.
    pub open spec fn may_ask(&self) -> bool {
        self.install || self.update
    }

    /// Whether revisions at GitHub are resolved many at a time: only where they may be asked for,
    /// do not come from the lock file, and there is a token to ask with.
    pub fn resolves_together(&self, has_token: bool) -> (together: bool)
        ensures
            together == asks_together(*self, has_token),
    {
        !self.locked && (self.install || self.update) && has_token
    }

    /// Whether a snapshot is made from an archive: only of a repository at GitHub whose `.git` is
    /// not kept.
    pub fn uses_archive(&self, at_github: bool, dotgit: bool) -> (archive: bool)
        ensures
            archive == takes_archive(*self, at_github, dotgit),
    {
        at_github && !dotgit && (self.install || self.update)
    }
}

/// The next thing to do for the objects of a repository.
#[derive(Clone, Copy, Debug, PartialEq, Eq, Structural)]
pub enum SourceStep {
    /// Opens the repository.
    Open,
    /// Makes the repository.
    Initialize,
    /// Looks for the revision.
    Look,
    /// Fetches the revision.
    Fetch,
    /// The revision is here.
    Ready,
    /// The plugin is not installed.
    NotInstalled,
    /// The repository of a locked revision is missing.
    Missing,
    /// The last step failed.
    Failed,
}

/// How a step ended.
#[derive(Clone, Copy, Debug, PartialEq, Eq, Structural)]
pub enum SourceEvent {
    /// It worked; of a search, the revision is there.
    Done,
    /// A search did not find the revision.
    Absent,
    /// It failed.
    Failed,
}

/// The step after another.
pub open spec fn source_after(mode: Mode, step: SourceStep, event: SourceEvent) -> SourceStep {
    match step {
        SourceStep::Open => match event {
            SourceEvent::Done => SourceStep::Look,
            _ => if mode.install || mode.update {
                SourceStep::Initialize
            } else if mode.locked {
                SourceStep::Missing
            } else {
                SourceStep::NotInstalled
            },
        },
        SourceStep::Initialize => match event {
            SourceEvent::Done => SourceStep::Look,
            _ => SourceStep::Failed,
        },
        SourceStep::Look => match event {
            SourceEvent::Done => SourceStep::Ready,
            SourceEvent::Absent => SourceStep::Fetch,
            SourceEvent::Failed => SourceStep::Failed,
        },
        SourceStep::Fetch => match event {
            SourceEvent::Done => SourceStep::Ready,
            _ => SourceStep::Failed,
        },
        SourceStep::Ready => SourceStep::Ready,
        SourceStep::NotInstalled => SourceStep::NotInstalled,
        SourceStep::Missing => SourceStep::Missing,
        SourceStep::Failed => SourceStep::Failed,
    }
}

/// Nothing is left to do.
pub open spec fn source_ends(step: SourceStep) -> bool {
    step is Ready || step is NotInstalled || step is Missing || step is Failed
}

impl SourceStep {
    /// The step after this one.
    pub fn advance(self, mode: Mode, event: SourceEvent) -> (next: SourceStep)
        ensures
            next == source_after(mode, self, event),
    {
        match self {
            SourceStep::Open => match event {
                SourceEvent::Done => SourceStep::Look,
                _ => if mode.install || mode.update {
                    SourceStep::Initialize
                } else if mode.locked {
                    SourceStep::Missing
                } else {
                    SourceStep::NotInstalled
                },
            },
            SourceStep::Initialize => match event {
                SourceEvent::Done => SourceStep::Look,
                _ => SourceStep::Failed,
            },
            SourceStep::Look => match event {
                SourceEvent::Done => SourceStep::Ready,
                SourceEvent::Absent => SourceStep::Fetch,
                SourceEvent::Failed => SourceStep::Failed,
            },
            SourceStep::Fetch => match event {
                SourceEvent::Done => SourceStep::Ready,
                _ => SourceStep::Failed,
            },
            SourceStep::Ready => SourceStep::Ready,
            SourceStep::NotInstalled => SourceStep::NotInstalled,
            SourceStep::Missing => SourceStep::Missing,
            SourceStep::Failed => SourceStep::Failed,
        }
    }

    /// Whether nothing is left to do.
    pub fn is_end(self) -> (end: bool)
        ensures
            end == source_ends(self),
    {
        match self {
            SourceStep::Ready | SourceStep::NotInstalled | SourceStep::Missing
            | SourceStep::Failed => true,
            _ => false,
        }
    }
}

/// The steps of a run, one for each event.
pub open spec fn source_run(mode: Mode, events: Seq<SourceEvent>) -> SourceStep
    decreases events.len(),
{
    if events.len() == 0 {
        SourceStep::Open
    } else {
        source_after(mode, source_run(mode, events.drop_last()), events.last())
    }
}

/// A run that neither installs nor updates makes no repository: it ends if there is none.
pub proof fn law_no_repository_made(mode: Mode, events: Seq<SourceEvent>)
    requires
        !mode.install,
        !mode.update,
    ensures
        !(source_run(mode, events) is Initialize),
    decreases events.len(),
{
    if events.len() > 0 {
        law_no_repository_made(mode, events.drop_last());
    }
}

/// How many more steps there are at most.
pub open spec fn source_left(step: SourceStep) -> int {
    match step {
        SourceStep::Open => 4,
        SourceStep::Initialize => 3,
        SourceStep::Look => 2,
        SourceStep::Fetch => 1,
        _ => 0,
    }
}

/// The objects of a repository are acquired, or not, after four steps.
pub proof fn law_source_ends(mode: Mode, events: Seq<SourceEvent>)
    ensures
        source_left(source_run(mode, events)) <= vstd::math::max(4 - events.len(), 0),
        events.len() >= 4 ==> source_ends(source_run(mode, events)),
    decreases events.len(),
{
    if events.len() > 0 {
        law_source_ends(mode, events.drop_last());
    }
}

/// What is said of a locked revision whose repository is missing.
pub open spec fn missing_text(url: Seq<char>) -> Seq<char> {
    "Missing cached repository for locked revision: "@ + url
}

/// What is said of a locked revision whose repository is missing.
pub fn missing_message(url: &str) -> (message: String)
    ensures
        message@ == missing_text(url@),
{
    String::from_str("Missing cached repository for locked revision: ").concat(url)
}

/// The next thing to do for a snapshot.
#[derive(Clone, Copy, Debug, PartialEq, Eq, Structural)]
pub enum SnapshotStep {
    /// Looks for the snapshot.
    Look,
    /// Downloads and unpacks an archive.
    Archive,
    /// Acquires the objects of the repository.
    Source,
    /// Makes the snapshot from the objects.
    Materialize,
    /// The snapshot is here; `plain` if it has no repository of its own.
    Ready { plain: bool },
    /// The plugin is not installed.
    NotInstalled,
    /// The last step failed.
    Failed,
}

/// How a step ended.
#[derive(Clone, Copy, Debug, PartialEq, Eq, Structural)]
pub enum SnapshotEvent {
    /// There is a snapshot.
    Found { has_git: bool },
    /// There is no snapshot, no archive or no repository.
    Absent,
    /// It worked.
    Done,
    /// It failed.
    Failed,
}

/// The step after another.
pub open spec fn snapshot_after(
    use_tarball: bool,
    step: SnapshotStep,
    event: SnapshotEvent,
) -> SnapshotStep {
    match step {
        SnapshotStep::Look => match event {
            SnapshotEvent::Found { has_git } => SnapshotStep::Ready { plain: !has_git },
            _ => if use_tarball {
                SnapshotStep::Archive
            } else {
                SnapshotStep::Materialize
            },
        },
        SnapshotStep::Archive => match event {
            SnapshotEvent::Done => SnapshotStep::Ready { plain: true },
            _ => SnapshotStep::Source,
        },
        SnapshotStep::Source => match event {
            SnapshotEvent::Done => SnapshotStep::Materialize,
            SnapshotEvent::Failed => SnapshotStep::Failed,
            _ => SnapshotStep::NotInstalled,
        },
        SnapshotStep::Materialize => match event {
            SnapshotEvent::Done => SnapshotStep::Ready { plain: false },
            _ => SnapshotStep::Failed,
        },
        SnapshotStep::Ready { plain } => SnapshotStep::Ready { plain },
        SnapshotStep::NotInstalled => SnapshotStep::NotInstalled,
        SnapshotStep::Failed => SnapshotStep::Failed,
    }
}

impl SnapshotStep {
    /// The step after this one.
    pub fn advance(self, use_tarball: bool, event: SnapshotEvent) -> (next: SnapshotStep)
        ensures
            next == snapshot_after(use_tarball, self, event),
    {
        match self {
            SnapshotStep::Look => match event {
                SnapshotEvent::Found { has_git } => SnapshotStep::Ready { plain: !has_git },
                _ => if use_tarball {
                    SnapshotStep::Archive
                } else {
                    SnapshotStep::Materialize
                },
            },
            SnapshotStep::Archive => match event {
                SnapshotEvent::Done => SnapshotStep::Ready { plain: true },
                _ => SnapshotStep::Source,
            },
            SnapshotStep::Source => match event {
                SnapshotEvent::Done => SnapshotStep::Materialize,
                SnapshotEvent::Failed => SnapshotStep::Failed,
                _ => SnapshotStep::NotInstalled,
            },
            SnapshotStep::Materialize => match event {
                SnapshotEvent::Done => SnapshotStep::Ready { plain: false },
                _ => SnapshotStep::Failed,
            },
            SnapshotStep::Ready { plain } => SnapshotStep::Ready { plain },
            SnapshotStep::NotInstalled => SnapshotStep::NotInstalled,
            SnapshotStep::Failed => SnapshotStep::Failed,
        }
    }
}

/// The steps of a run, one for each event.
pub open spec fn snapshot_run(use_tarball: bool, events: Seq<SnapshotEvent>) -> SnapshotStep
    decreases events.len(),
{
    if events.len() == 0 {
        SnapshotStep::Look
    } else {
        snapshot_after(use_tarball, snapshot_run(use_tarball, events.drop_last()), events.last())
    }
}

/// Nothing is left to do.
pub open spec fn snapshot_ends(step: SnapshotStep) -> bool {
    step is Ready || step is NotInstalled || step is Failed
}

/// How many more steps there are at most.
pub open spec fn snapshot_left(step: SnapshotStep) -> int {
    match step {
        SnapshotStep::Look => 4,
        SnapshotStep::Archive => 3,
        SnapshotStep::Source => 2,
        SnapshotStep::Materialize => 1,
        _ => 0,
    }
}

/// A snapshot is there, or not, after four steps; an archive is unpacked only where archives are
/// used, and one that cannot be had falls back to the objects of the repository.
pub proof fn law_snapshot_ends(use_tarball: bool, events: Seq<SnapshotEvent>)
    ensures
        snapshot_left(snapshot_run(use_tarball, events)) <= vstd::math::max(4 - events.len(), 0),
        events.len() >= 4 ==> snapshot_ends(snapshot_run(use_tarball, events)),
        !use_tarball ==> !(snapshot_run(use_tarball, events) is Archive) && !(snapshot_run(
            use_tarball,
            events,
        ) is Source),
    decreases events.len(),
{
    if events.len() > 0 {
        law_snapshot_ends(use_tarball, events.drop_last());
    }
}

/// The next thing to do for a build.
#[derive(Clone, Copy, Debug, PartialEq, Eq, Structural)]
pub enum BuildStep {
    /// Runs the shell command.
    Shell,
    /// Runs the Lua script.
    Lua,
    /// The build is over.
    Done,
    /// The shell command failed.
    ShellFailed { status: i32 },
    /// The Lua script failed.
    LuaFailed { code: i32 },
}

/// The first step of a build.
pub open spec fn build_first(has_shell: bool, has_lua: bool) -> BuildStep {
    if has_shell {
        BuildStep::Shell
    } else if has_lua {
        BuildStep::Lua
    } else {
        BuildStep::Done
    }
}

/// The step after another that ended with an exit status.
pub open spec fn build_after(has_lua: bool, step: BuildStep, status: i32) -> BuildStep {
    match step {
        BuildStep::Shell => if status != 0 {
            BuildStep::ShellFailed { status }
        } else {
            build_first(false, has_lua)
        },
        BuildStep::Lua => if status != 0 {
            BuildStep::LuaFailed { code: status }
        } else {
            BuildStep::Done
        },
        _ => step,
    }
}

impl BuildStep {
    /// The first step of a build.
    pub fn first(has_shell: bool, has_lua: bool) -> (step: BuildStep)
        ensures
            step == build_first(has_shell, has_lua),
    {
        if has_shell {
            BuildStep::Shell
        } else if has_lua {
            BuildStep::Lua
        } else {
            BuildStep::Done
        }
    }

    /// The step after this one, which ended with an exit status.
    pub fn advance(self, has_lua: bool, status: i32) -> (next: BuildStep)
        ensures
            next == build_after(has_lua, self, status),
    {
        match self {
            BuildStep::Shell => if status != 0 {
                BuildStep::ShellFailed { status }
            } else {
                BuildStep::first(false, has_lua)
            },
            BuildStep::Lua => if status != 0 {
                BuildStep::LuaFailed { code: status }
            } else {
                BuildStep::Done
            },
            BuildStep::Done => BuildStep::Done,
            BuildStep::ShellFailed { status } => BuildStep::ShellFailed { status },
            BuildStep::LuaFailed { code } => BuildStep::LuaFailed { code },
        }
    }
}

/// The Lua script runs only after a shell command that worked, if there is one; and a build is
/// over only when both worked.
pub proof fn law_build_order(has_shell: bool, has_lua: bool, shell: i32, lua: i32)
    ensures
        has_shell && shell != 0 ==> build_after(has_lua, build_first(has_shell, has_lua), shell)
            == (BuildStep::ShellFailed { status: shell }),
        has_shell && has_lua && shell == 0 ==> build_after(
            has_lua,
            build_after(has_lua, build_first(has_shell, has_lua), shell),
            lua,
        ) == (if lua == 0 {
            BuildStep::Done
        } else {
            BuildStep::LuaFailed { code: lua }
        }),
        !has_shell && !has_lua ==> build_first(has_shell, has_lua) is Done,
{
}

/// The name of a build in messages.
pub open spec fn build_id(logid: Seq<char>, lua: bool) -> Seq<char> {
    logid + (if lua {
        " (lua)"@
    } else {
        " (sh)"@
    })
}

/// The name of a build in messages.
pub fn build_log_id(logid: &str, lua: bool) -> (id: String)
    ensures
        id@ == build_id(logid@, lua),
{
    if lua {
        String::from_str(logid).concat(" (lua)")
    } else {
        String::from_str(logid).concat(" (sh)")
    }
}

/// Which revision of a repository is used.
pub enum Choice {
    /// This one.
    Use { oid: String },
    /// The one that the remote has.
    Ask,
    /// None: the plugin is not installed.
    Skip,
}

/// What a choice is, mathematically.
pub enum Chosen {
    Use { oid: Seq<char> },
    Ask,
    Skip,
}

impl View for Choice {
    type V = Chosen;

    open spec fn view(&self) -> Chosen {
        match self {
            Choice::Use { oid } => Chosen::Use { oid: oid@ },
            Choice::Ask => Chosen::Ask,
            Choice::Skip => Chosen::Skip,
        }
    }
}

/// A revision that is fixed is used; else the one that is installed, unless it is to be updated;
/// else the one of the remote, if repositories may be fetched.
pub open spec fn chosen(mode: Mode, fixed: Option<Seq<char>>, current: Option<Seq<char>>) -> Chosen {
    match fixed {
        Some(oid) => Chosen::Use { oid },
        None => match current {
            Some(oid) => if mode.update {
                Chosen::Ask
            } else {
                Chosen::Use { oid }
            },
            None => if mode.install || mode.update {
                Chosen::Ask
            } else {
                Chosen::Skip
            },
        },
    }
}

/// Which revision of a repository is used.
pub fn choose_revision(mode: Mode, fixed: Option<String>, current: Option<String>) -> (choice: Choice)
    ensures
        choice@ == chosen(mode, text::optional_string(fixed), text::optional_string(current)),
{
    match fixed {
        Some(oid) => Choice::Use { oid },
        None => match current {
            Some(oid) => if mode.update {
                Choice::Ask
            } else {
                Choice::Use { oid }
            },
            None => if mode.install || mode.update {
                Choice::Ask
            } else {
                Choice::Skip
            },
        },
    }
}

/// Without leave to install or update, the installed revision is used again and no remote is asked.
pub proof fn law_revision_reused(mode: Mode, current: Option<Seq<char>>)
    requires
        !mode.install,
        !mode.update,
    ensures
        chosen(mode, None, current) == (match current {
            Some(oid) => Chosen::Use { oid },
            None => Chosen::Skip,
        }),
        forall|fixed: Option<Seq<char>>| !(#[trigger] chosen(mode, fixed, current) is Ask),
{
}

/// The script for updates is run.
pub open spec fn follows_update(mode: Mode, current: Option<Seq<char>>, oid: Seq<char>) -> bool {
    mode.update && match current {
        Some(old) => old != oid,
        None => false,
    }
}

/// Whether the script for updates is run: only if an update brought a new revision to a repository
/// that was there before.
pub fn runs_post_update(mode: Mode, current: &Option<String>, oid: &str) -> (runs: bool)
    ensures
        runs == follows_update(mode, text::optional_string(*current), oid@),
{
    match current {
        Some(old) => mode.update && !text::same(old.as_str(), oid),
        None => false,
    }
}

} // verus!
