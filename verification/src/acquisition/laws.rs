//! What holds of every run that acquires a repository, makes its snapshot or builds it.

use crate::acquisition;
use crate::acquisition::{
    BuildStep, Chosen, Mode, SnapshotEvent, SnapshotStep, SourceEvent, SourceStep,
};
use vstd::prelude::*;

verus! {

/// The `k`-th event of the run ended this step, and is this one.
pub open spec fn source_ended_at(
    mode: Mode,
    events: Seq<SourceEvent>,
    step: SourceStep,
    event: SourceEvent,
    k: int,
) -> bool {
    0 <= k < events.len() && acquisition::source_run(mode, events.take(k)) == step && events[k]
        == event
}

/// The step was reached in the run, and ended with this event.
pub open spec fn source_ended(
    mode: Mode,
    events: Seq<SourceEvent>,
    step: SourceStep,
    event: SourceEvent,
) -> bool {
    exists|k: int| #[trigger] source_ended_at(mode, events, step, event, k)
}

proof fn lemma_source_ended(
    mode: Mode,
    events: Seq<SourceEvent>,
    step: SourceStep,
    event: SourceEvent,
)
    requires
        events.len() > 0,
    ensures
        source_ended(mode, events, step, event) <==> source_ended(
            mode,
            events.drop_last(),
            step,
            event,
        ) || (acquisition::source_run(mode, events.drop_last()) == step && events.last() == event),
{
    let front = events.drop_last();
    let n = front.len() as int;
    assert(events.take(n) =~= front);
    if source_ended(mode, events, step, event) {
        let k = choose|k: int| #[trigger] source_ended_at(mode, events, step, event, k);
        assert(k < n ==> front.take(k) =~= events.take(k));
        if k < n {
            assert(source_ended_at(mode, front, step, event, k));
        }
    }
    if source_ended(mode, front, step, event) {
        let k = choose|k: int| #[trigger] source_ended_at(mode, front, step, event, k);
        assert(front.take(k) =~= events.take(k));
        assert(source_ended_at(mode, events, step, event, k));
    }
    if acquisition::source_run(mode, front) == step && events.last() == event {
        assert(source_ended_at(mode, events, step, event, n));
    }
}

/// The revision is ready exactly if it was found in the repository, or was fetched: to open or to
/// make a repository is not enough.
pub proof fn law_ready_when_found_or_fetched(mode: Mode, events: Seq<SourceEvent>)
    ensures
        acquisition::source_run(mode, events) is Ready <==> source_ended(
            mode,
            events,
            SourceStep::Look,
            SourceEvent::Done,
        ) || source_ended(mode, events, SourceStep::Fetch, SourceEvent::Done),
    decreases events.len(),
{
    if events.len() > 0 {
        law_ready_when_found_or_fetched(mode, events.drop_last());
        lemma_source_ended(mode, events, SourceStep::Look, SourceEvent::Done);
        lemma_source_ended(mode, events, SourceStep::Fetch, SourceEvent::Done);
    }
}

/// The revision is looked for exactly when there is a repository, opened or made; it is fetched
/// exactly when it was looked for and is not there; and a repository is made exactly when it could
/// not be opened and the run may install or update.
pub proof fn law_fetched_when_absent(mode: Mode, events: Seq<SourceEvent>)
    ensures
        ({
            let step = acquisition::source_run(mode, events);
            let unopened = source_ended(mode, events, SourceStep::Open, SourceEvent::Failed)
                || source_ended(mode, events, SourceStep::Open, SourceEvent::Absent);
            let there = source_ended(mode, events, SourceStep::Open, SourceEvent::Done)
                || source_ended(mode, events, SourceStep::Initialize, SourceEvent::Done);
            &&& step is Initialize ==> unopened && (mode.install || mode.update)
            &&& step is Look || step is Fetch || step is Ready ==> there
            &&& step is Fetch ==> source_ended(mode, events, SourceStep::Look, SourceEvent::Absent)
            &&& step is Missing <==> unopened && !mode.install && !mode.update && mode.locked
            &&& step is NotInstalled <==> unopened && !mode.install && !mode.update && !mode.locked
            &&& step is Open ==> events.len() == 0
        }),
    decreases events.len(),
{
    if events.len() > 0 {
        law_fetched_when_absent(mode, events.drop_last());
        lemma_source_ended(mode, events, SourceStep::Open, SourceEvent::Failed);
        lemma_source_ended(mode, events, SourceStep::Open, SourceEvent::Absent);
        lemma_source_ended(mode, events, SourceStep::Open, SourceEvent::Done);
        lemma_source_ended(mode, events, SourceStep::Initialize, SourceEvent::Done);
        lemma_source_ended(mode, events, SourceStep::Look, SourceEvent::Absent);
    }
}

/// A run that may install or update gets every revision that can be had: unless a step fails that
/// makes, searches or fetches, it is ready after four steps, whether the repository was there or
/// not.
pub proof fn law_fetches(mode: Mode, events: Seq<SourceEvent>)
    requires
        mode.install || mode.update,
        events.len() >= 4,
    ensures
        ({
            let failed = source_ended(mode, events, SourceStep::Initialize, SourceEvent::Failed)
                || source_ended(mode, events, SourceStep::Initialize, SourceEvent::Absent)
                || source_ended(mode, events, SourceStep::Look, SourceEvent::Failed)
                || source_ended(mode, events, SourceStep::Fetch, SourceEvent::Failed)
                || source_ended(mode, events, SourceStep::Fetch, SourceEvent::Absent);
            acquisition::source_run(mode, events) == (if failed {
                SourceStep::Failed
            } else {
                SourceStep::Ready
            })
        }),
{
    lemma_failed(mode, events);
    acquisition::law_source_ends(mode, events);
    law_fetched_when_absent(mode, events);
}

proof fn lemma_failed(mode: Mode, events: Seq<SourceEvent>)
    ensures
        acquisition::source_run(mode, events) is Failed <==> source_ended(
            mode,
            events,
            SourceStep::Initialize,
            SourceEvent::Failed,
        ) || source_ended(mode, events, SourceStep::Initialize, SourceEvent::Absent)
            || source_ended(mode, events, SourceStep::Look, SourceEvent::Failed) || source_ended(
            mode,
            events,
            SourceStep::Fetch,
            SourceEvent::Failed,
        ) || source_ended(mode, events, SourceStep::Fetch, SourceEvent::Absent),
    decreases events.len(),
{
    if events.len() > 0 {
        lemma_failed(mode, events.drop_last());
        lemma_source_ended(mode, events, SourceStep::Initialize, SourceEvent::Failed);
        lemma_source_ended(mode, events, SourceStep::Initialize, SourceEvent::Absent);
        lemma_source_ended(mode, events, SourceStep::Look, SourceEvent::Failed);
        lemma_source_ended(mode, events, SourceStep::Fetch, SourceEvent::Failed);
        lemma_source_ended(mode, events, SourceStep::Fetch, SourceEvent::Absent);
    }
}

/// The `k`-th event of the run ended this step, and is this one.
pub open spec fn snapshot_ended_at(
    use_tarball: bool,
    events: Seq<SnapshotEvent>,
    step: SnapshotStep,
    event: SnapshotEvent,
    k: int,
) -> bool {
    0 <= k < events.len() && acquisition::snapshot_run(use_tarball, events.take(k)) == step
        && events[k] == event
}

/// The step was reached in the run, and ended with this event.
pub open spec fn snapshot_ended(
    use_tarball: bool,
    events: Seq<SnapshotEvent>,
    step: SnapshotStep,
    event: SnapshotEvent,
) -> bool {
    exists|k: int| #[trigger] snapshot_ended_at(use_tarball, events, step, event, k)
}

proof fn lemma_snapshot_ended(
    use_tarball: bool,
    events: Seq<SnapshotEvent>,
    step: SnapshotStep,
    event: SnapshotEvent,
)
    requires
        events.len() > 0,
    ensures
        snapshot_ended(use_tarball, events, step, event) <==> snapshot_ended(
            use_tarball,
            events.drop_last(),
            step,
            event,
        ) || (acquisition::snapshot_run(use_tarball, events.drop_last()) == step && events.last()
            == event),
{
    let front = events.drop_last();
    let n = front.len() as int;
    assert(events.take(n) =~= front);
    if snapshot_ended(use_tarball, events, step, event) {
        let k = choose|k: int| #[trigger] snapshot_ended_at(use_tarball, events, step, event, k);
        assert(k < n ==> front.take(k) =~= events.take(k));
        if k < n {
            assert(snapshot_ended_at(use_tarball, front, step, event, k));
        }
    }
    if snapshot_ended(use_tarball, front, step, event) {
        let k = choose|k: int| #[trigger] snapshot_ended_at(use_tarball, front, step, event, k);
        assert(front.take(k) =~= events.take(k));
        assert(snapshot_ended_at(use_tarball, events, step, event, k));
    }
    if acquisition::snapshot_run(use_tarball, front) == step && events.last() == event {
        assert(snapshot_ended_at(use_tarball, events, step, event, n));
    }
}

/// A snapshot is there exactly if it was found, was unpacked from an archive, or was made from the
/// objects of the repository.  It has a repository of its own exactly if one was found in it, or
/// it was made from the objects.
pub proof fn law_snapshot_when_made(use_tarball: bool, events: Seq<SnapshotEvent>)
    ensures
        ({
            let step = acquisition::snapshot_run(use_tarball, events);
            let found_plain = snapshot_ended(
                use_tarball,
                events,
                SnapshotStep::Look,
                SnapshotEvent::Found { has_git: false },
            );
            let found_git = snapshot_ended(
                use_tarball,
                events,
                SnapshotStep::Look,
                SnapshotEvent::Found { has_git: true },
            );
            let unpacked = snapshot_ended(
                use_tarball,
                events,
                SnapshotStep::Archive,
                SnapshotEvent::Done,
            );
            let made = snapshot_ended(
                use_tarball,
                events,
                SnapshotStep::Materialize,
                SnapshotEvent::Done,
            );
            &&& step == (SnapshotStep::Ready { plain: true }) <==> found_plain || unpacked
            &&& step == (SnapshotStep::Ready { plain: false }) <==> found_git || made
        }),
    decreases events.len(),
{
    if events.len() > 0 {
        law_snapshot_when_made(use_tarball, events.drop_last());
        lemma_snapshot_ended(
            use_tarball,
            events,
            SnapshotStep::Look,
            SnapshotEvent::Found { has_git: false },
        );
        lemma_snapshot_ended(
            use_tarball,
            events,
            SnapshotStep::Look,
            SnapshotEvent::Found { has_git: true },
        );
        lemma_snapshot_ended(use_tarball, events, SnapshotStep::Archive, SnapshotEvent::Done);
        lemma_snapshot_ended(use_tarball, events, SnapshotStep::Materialize, SnapshotEvent::Done);
    }
}

/// The `k`-th event of the run ended the acquisition of the objects, without them and without a
/// failure.
pub open spec fn not_acquired_at(use_tarball: bool, events: Seq<SnapshotEvent>, k: int) -> bool {
    0 <= k < events.len() && acquisition::snapshot_run(use_tarball, events.take(k)) is Source
        && events[k] != SnapshotEvent::Done && events[k] != SnapshotEvent::Failed
}

/// An archive is asked for before the objects of a repository, wherever archives are used: the
/// objects are acquired only after the archive could not be had, and a snapshot is made from them
/// only when they were acquired.  The plugin is not installed exactly if they are not to be had.
pub proof fn law_archive_first(use_tarball: bool, events: Seq<SnapshotEvent>)
    ensures
        ({
            let step = acquisition::snapshot_run(use_tarball, events);
            &&& step is Look ==> events.len() == 0
            &&& step is Archive ==> use_tarball && events.len() == 1
            &&& step is Source ==> use_tarball && events.len() == 2 && acquisition::snapshot_run(
                use_tarball,
                events.take(1),
            ) is Archive && events[1] != SnapshotEvent::Done
            &&& step is Materialize && use_tarball ==> snapshot_ended(
                use_tarball,
                events,
                SnapshotStep::Source,
                SnapshotEvent::Done,
            )
            &&& step is NotInstalled <==> exists|k: int| #[trigger]
                not_acquired_at(use_tarball, events, k)
        }),
    decreases events.len(),
{
    if events.len() > 0 {
        let front = events.drop_last();
        law_archive_first(use_tarball, front);
        assert(front.take(1) =~= events.take(1) || events.len() <= 1);
        assert(events.len() == 2 ==> events.take(1) =~= front);
        lemma_snapshot_ended(use_tarball, events, SnapshotStep::Source, SnapshotEvent::Done);
        let n = front.len() as int;
        assert(events.take(n) =~= front);
        if exists|k: int| #[trigger] not_acquired_at(use_tarball, front, k) {
            let k = choose|k: int| #[trigger] not_acquired_at(use_tarball, front, k);
            assert(front.take(k) =~= events.take(k));
            assert(not_acquired_at(use_tarball, events, k));
        }
        if acquisition::snapshot_run(use_tarball, front) is Source && events.last()
            != SnapshotEvent::Done && events.last() != SnapshotEvent::Failed {
            assert(not_acquired_at(use_tarball, events, n));
        }
        if exists|k: int| #[trigger] not_acquired_at(use_tarball, events, k) {
            let k = choose|k: int| #[trigger] not_acquired_at(use_tarball, events, k);
            if k < n {
                assert(front.take(k) =~= events.take(k));
                assert(not_acquired_at(use_tarball, front, k));
            }
        }
    }
}

/// A build is over without a failure exactly if every command that there is has run and worked;
/// the script runs after the command.
pub proof fn law_build_over(has_shell: bool, has_lua: bool, shell: i32, lua: i32)
    ensures
        ({
            let first = acquisition::build_first(has_shell, has_lua);
            let second = acquisition::build_after(has_lua, first, shell);
            let third = acquisition::build_after(has_lua, second, lua);
            &&& first is Shell <==> has_shell
            &&& first is Lua <==> has_lua && !has_shell
            &&& first is Done <==> !has_lua && !has_shell
            &&& has_shell ==> {
                &&& second is Lua <==> shell == 0 && has_lua
                &&& second is Done <==> shell == 0 && !has_lua
                &&& second is ShellFailed <==> shell != 0
                &&& third is Done <==> shell == 0 && (has_lua ==> lua == 0)
                &&& shell != 0 ==> third == (BuildStep::ShellFailed { status: shell })
                &&& shell == 0 && has_lua && lua != 0 ==> third == (BuildStep::LuaFailed {
                    code: lua,
                })
            }
            &&& !has_shell && has_lua ==> second == (if shell == 0 {
                BuildStep::Done
            } else {
                BuildStep::LuaFailed { code: shell }
            })
        }),
{
}

/// A revision that is fixed, by the lock file or by having been resolved, is the one that is used,
/// whatever is installed.  Without one, a run that updates asks the remote; a run that does not
/// keeps what is installed; and what is not installed is asked for only where the run may install.
pub proof fn law_chosen_revision(mode: Mode, fixed: Option<Seq<char>>, current: Option<Seq<char>>)
    ensures
        ({
            let choice = acquisition::chosen(mode, fixed, current);
            &&& fixed is Some ==> choice == (Chosen::Use { oid: fixed->0 })
            &&& choice is Ask <==> fixed is None && (mode.update || (mode.install && current is None))
            &&& choice is Skip <==> fixed is None && current is None && !mode.install
                && !mode.update
            &&& choice matches Chosen::Use { oid } ==> fixed == Some(oid) || (fixed is None
                && current == Some(oid) && !mode.update)
        }),
{
}

/// Revisions are resolved together only in a run that may ask, is not locked and has a token, and
/// then they are.
pub proof fn law_asks_together(mode: Mode, has_token: bool)
    ensures
        mode.locked ==> !acquisition::asks_together(mode, has_token),
        !has_token ==> !acquisition::asks_together(mode, has_token),
        !mode.install && !mode.update ==> !acquisition::asks_together(mode, has_token),
        !mode.locked && has_token && mode.install ==> acquisition::asks_together(mode, has_token),
        !mode.locked && has_token && mode.update ==> acquisition::asks_together(mode, has_token),
{
}

/// An archive is taken of what is at GitHub, in a run that may ask; never where `.git` is kept, which
/// an archive does not have.
pub proof fn law_takes_archive(mode: Mode, at_github: bool, dotgit: bool)
    ensures
        dotgit ==> !acquisition::takes_archive(mode, at_github, dotgit),
        !at_github ==> !acquisition::takes_archive(mode, at_github, dotgit),
        !mode.install && !mode.update ==> !acquisition::takes_archive(mode, at_github, dotgit),
        at_github && !dotgit && mode.install ==> acquisition::takes_archive(mode, at_github, dotgit),
        at_github && !dotgit && mode.update ==> acquisition::takes_archive(mode, at_github, dotgit),
{
}

/// The script for updates is run only after an update from one revision to another: not on a first
/// installation, and not if the revision stayed.
pub proof fn law_follows_update(mode: Mode, current: Option<Seq<char>>, oid: Seq<char>)
    ensures
        !mode.update ==> !acquisition::follows_update(mode, current, oid),
        current is None ==> !acquisition::follows_update(mode, current, oid),
        current == Some(oid) ==> !acquisition::follows_update(mode, current, oid),
        mode.update && current is Some && current != Some(oid) ==> acquisition::follows_update(
            mode,
            current,
            oid,
        ),
{
}

/// The two builds of a plugin are told apart by what follows its name, and a missing repository is
/// named at the end of what is said of it.
pub proof fn law_names_in_messages(logid: Seq<char>, url: Seq<char>)
    ensures
        acquisition::build_id(logid, true) == logid + " (lua)"@,
        acquisition::build_id(logid, false) == logid + " (sh)"@,
        acquisition::build_id(logid, true) != acquisition::build_id(logid, false),
        url.is_suffix_of(acquisition::missing_text(url)),
{
    reveal_strlit(" (lua)");
    reveal_strlit(" (sh)");
    let said = acquisition::missing_text(url);
    assert(url =~= said.subrange(said.len() - url.len(), said.len() as int));
    assert(acquisition::build_id(logid, true).len() != acquisition::build_id(logid, false).len());
}

} // verus!
