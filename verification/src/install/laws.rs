//! What holds of every course of an installation: which steps come before which.

use crate::install;
use crate::install::{InstallEvent, InstallStep, Installation};
use vstd::prelude::*;

verus! {

/// The `k`-th event of the course ended this step, and it did not fail.
pub open spec fn passed_at(
    start: Installation,
    events: Seq<InstallEvent>,
    step: InstallStep,
    k: int,
) -> bool {
    0 <= k < events.len() && install::run(start, events.take(k)).step == step && events[k]
        != InstallEvent::Error
}

/// The course has gone through the step without a failure.
pub open spec fn passed(start: Installation, events: Seq<InstallEvent>, step: InstallStep) -> bool {
    exists|k: int| #[trigger] passed_at(start, events, step, k)
}

/// The `k`-th event of the course ended this step, and is this one.
pub open spec fn ended_at(
    start: Installation,
    events: Seq<InstallEvent>,
    step: InstallStep,
    event: InstallEvent,
    k: int,
) -> bool {
    0 <= k < events.len() && install::run(start, events.take(k)).step == step && events[k] == event
}

/// The step was reached, and ended with this event.
pub open spec fn ended(
    start: Installation,
    events: Seq<InstallEvent>,
    step: InstallStep,
    event: InstallEvent,
) -> bool {
    exists|k: int| #[trigger] ended_at(start, events, step, event, k)
}

/// The states before the last event are those of the course without it.
proof fn lemma_prefix(events: Seq<InstallEvent>, k: int)
    requires
        events.len() > 0,
        0 <= k < events.len(),
    ensures
        events.drop_last().take(k) == events.take(k),
        events.take(events.len() - 1) == events.drop_last(),
{
    assert(events.drop_last().take(k) =~= events.take(k));
    assert(events.take(events.len() - 1) =~= events.drop_last());
}

/// What was passed stays passed, and the last event decides on the last step.
proof fn lemma_passed_step(start: Installation, events: Seq<InstallEvent>, step: InstallStep)
    requires
        events.len() > 0,
    ensures
        passed(start, events, step) <==> passed(start, events.drop_last(), step) || (install::run(
            start,
            events.drop_last(),
        ).step == step && events.last() != InstallEvent::Error),
{
    let front = events.drop_last();
    let n = front.len() as int;
    lemma_prefix(events, n);
    if passed(start, events, step) {
        let k = choose|k: int| #[trigger] passed_at(start, events, step, k);
        lemma_prefix(events, k);
        if k < n {
            assert(passed_at(start, front, step, k));
        }
    }
    if passed(start, front, step) {
        let k = choose|k: int| #[trigger] passed_at(start, front, step, k);
        lemma_prefix(events, k);
        assert(passed_at(start, events, step, k));
    }
    if install::run(start, front).step == step && events.last() != InstallEvent::Error {
        assert(passed_at(start, events, step, n));
    }
}

/// What has ended a step has ended it, and the last event ends the last step.
proof fn lemma_ended_step(
    start: Installation,
    events: Seq<InstallEvent>,
    step: InstallStep,
    event: InstallEvent,
)
    requires
        events.len() > 0,
    ensures
        ended(start, events, step, event) <==> ended(start, events.drop_last(), step, event) || (
        install::run(start, events.drop_last()).step == step && events.last() == event),
{
    let front = events.drop_last();
    let n = front.len() as int;
    lemma_prefix(events, n);
    if ended(start, events, step, event) {
        let k = choose|k: int| #[trigger] ended_at(start, events, step, event, k);
        lemma_prefix(events, k);
        if k < n {
            assert(ended_at(start, front, step, event, k));
        }
    }
    if ended(start, front, step, event) {
        let k = choose|k: int| #[trigger] ended_at(start, front, step, event, k);
        lemma_prefix(events, k);
        assert(ended_at(start, events, step, event, k));
    }
    if install::run(start, front).step == step && events.last() == event {
        assert(ended_at(start, events, step, event, n));
    }
}

/// What the last event adds to what was passed, and to what has ended steps.
proof fn lemma_passed(
    start: Installation,
    events: Seq<InstallEvent>,
    step: InstallStep,
    event: InstallEvent,
)
    requires
        events.len() > 0,
    ensures
        ({
            let last = install::run(start, events.drop_last()).step;
            &&& passed(start, events, step) <==> passed(start, events.drop_last(), step) || (last
                == step && events.last() != InstallEvent::Error)
            &&& ended(start, events, step, event) <==> ended(
                start,
                events.drop_last(),
                step,
                event,
            ) || (last == step && events.last() == event)
        }),
{
    lemma_passed_step(start, events, step);
    lemma_ended_step(start, events, step, event);
}

/// A course without events has passed nothing.
proof fn lemma_nothing_passed(
    start: Installation,
    events: Seq<InstallEvent>,
    step: InstallStep,
    event: InstallEvent,
)
    requires
        events.len() == 0,
    ensures
        !passed(start, events, step),
        !ended(start, events, step, event),
{
}

/// The private directory is filled: it was made, and after that the packages were copied into it.
pub open spec fn filled(start: Installation, events: Seq<InstallEvent>) -> bool {
    passed(start, events, InstallStep::CreateStaging) && passed(
        start,
        events,
        InstallStep::CopyPackages,
    )
}

/// The private directory is complete: filled, with its help tags, and with its file type plugins
/// looked for where inventories do not tell of them.
pub open spec fn complete(start: Installation, events: Seq<InstallEvent>) -> bool {
    filled(start, events) && passed(start, events, InstallStep::Helptags) && (start.has_index
        || passed(start, events, InstallStep::ScanFtplugins))
}

/// The installation is about to publish, or has begun to.
pub open spec fn publishes(s: Installation) -> bool {
    s.packages_published || s.manifest_written || s.pointer_swapped || s.step
        == InstallStep::PublishPackages || s.step == InstallStep::WriteManifest || s.step
        == InstallStep::SwapLink || s.step == InstallStep::WritePlainLoader || s.step
        == InstallStep::WriteRegistry || s.step == InstallStep::Unlock || s.step
        == InstallStep::CollectRetained || s.step == InstallStep::RemovePackages || s.step
        == InstallStep::RemoveLoaders
}

/// The old packages are looked at, or removed.
pub open spec fn cleans_up(s: Installation) -> bool {
    s.step == InstallStep::CollectRetained || s.step == InstallStep::RemovePackages || s.step
        == InstallStep::RemoveLoaders
}

proof fn lemma_kept(start: Installation, events: Seq<InstallEvent>)
    ensures
        install::run(start, events).has_controls == start.has_controls,
        install::run(start, events).has_index == start.has_index,
    decreases events.len(),
{
    if events.len() > 0 {
        lemma_kept(start, events.drop_last());
    }
}

/// Packages are built in private and published when they are complete: whoever publishes has made
/// a private directory, has copied the packages into it, has made its help tags, has looked for
/// file type plugins unless inventories tell of them, has waited for other publications, and has
/// found that none of them was the same.  None of these steps has failed.
pub proof fn law_published_when_complete(
    has_ft: bool,
    has_index: bool,
    has_packages: bool,
    has_controls: bool,
    events: Seq<InstallEvent>,
)
    ensures
        ({
            let start = install::started(has_ft, has_index, has_packages, has_controls);
            let s = install::run(start, events);
            &&& s.step == InstallStep::CopyPackages ==> passed(
                start,
                events,
                InstallStep::CreateStaging,
            )
            &&& s.step == InstallStep::Helptags ==> filled(start, events)
            &&& s.step == InstallStep::ScanFtplugins ==> filled(start, events) && passed(
                start,
                events,
                InstallStep::Helptags,
            )
            &&& s.step == InstallStep::Lock || s.step == InstallStep::CheckAgain || s.step
                == InstallStep::DiscardStaging ==> complete(start, events)
            &&& s.step == InstallStep::CheckAgain || s.step == InstallStep::DiscardStaging
                ==> passed(start, events, InstallStep::Lock)
            &&& publishes(s) ==> complete(start, events) && passed(start, events, InstallStep::Lock)
                && (ended(start, events, InstallStep::CheckAgain, InstallEvent::No) || ended(
                start,
                events,
                InstallStep::CheckAgain,
                InstallEvent::Done,
            ) || ended(start, events, InstallStep::CheckAgain, InstallEvent::Error))
        }),
    decreases events.len(),
{
    let start = install::started(has_ft, has_index, has_packages, has_controls);
    lemma_kept(start, events);
    if events.len() > 0 {
        let front = events.drop_last();
        law_published_when_complete(has_ft, has_index, has_packages, has_controls, front);
        lemma_kept(start, front);
        lemma_passed(start, events, InstallStep::CreateStaging, InstallEvent::Done);
        lemma_passed(start, events, InstallStep::CopyPackages, InstallEvent::Done);
        lemma_passed(start, events, InstallStep::Helptags, InstallEvent::Done);
        lemma_passed(start, events, InstallStep::ScanFtplugins, InstallEvent::Done);
        lemma_passed(start, events, InstallStep::Lock, InstallEvent::Done);
        lemma_passed(start, events, InstallStep::CheckAgain, InstallEvent::Done);
        lemma_passed(start, events, InstallStep::CheckAgain, InstallEvent::No);
        lemma_passed(start, events, InstallStep::CheckAgain, InstallEvent::Error);
    }
}

/// What the state says of the publication is what has happened: packages are published when they
/// were moved into place, the generation is recorded when its manifest was written, and the loader
/// is in use when the link was swapped or a plain loader was written.  With generated packages the
/// link is swapped after the manifest was written; without them there is only a plain loader.
pub proof fn law_state_is_what_happened(
    has_ft: bool,
    has_index: bool,
    has_packages: bool,
    has_controls: bool,
    events: Seq<InstallEvent>,
)
    ensures
        ({
            let start = install::started(has_ft, has_index, has_packages, has_controls);
            let s = install::run(start, events);
            &&& s.packages_published <==> passed(start, events, InstallStep::PublishPackages)
            &&& s.manifest_written <==> passed(start, events, InstallStep::WriteManifest)
            &&& s.pointer_swapped <==> passed(start, events, InstallStep::SwapLink) || passed(
                start,
                events,
                InstallStep::WritePlainLoader,
            )
            &&& s.cleanup_failed <==> ended(
                start,
                events,
                InstallStep::RemovePackages,
                InstallEvent::Error,
            )
            &&& s.cleanup_failed ==> s.step == InstallStep::Failed
            &&& s.manifest_written ==> has_controls
            &&& s.step == InstallStep::WriteManifest ==> has_controls && s.packages_published
            &&& s.step == InstallStep::SwapLink ==> has_controls && s.manifest_written
            &&& s.step == InstallStep::WritePlainLoader ==> !has_controls && s.packages_published
            &&& s.pointer_swapped ==> s.packages_published && s.manifest_written == has_controls
        }),
    decreases events.len(),
{
    let start = install::started(has_ft, has_index, has_packages, has_controls);
    lemma_kept(start, events);
    if events.len() > 0 {
        let front = events.drop_last();
        law_state_is_what_happened(has_ft, has_index, has_packages, has_controls, front);
        install::law_pointer_last(has_ft, has_index, has_packages, has_controls, front);
        lemma_kept(start, front);
        lemma_passed(start, events, InstallStep::PublishPackages, InstallEvent::Done);
        lemma_passed(start, events, InstallStep::WriteManifest, InstallEvent::Done);
        lemma_passed(start, events, InstallStep::SwapLink, InstallEvent::Done);
        lemma_passed(start, events, InstallStep::WritePlainLoader, InstallEvent::Done);
        lemma_passed(start, events, InstallStep::RemovePackages, InstallEvent::Error);
        lemma_passed(start, events, InstallStep::RemovePackages, InstallEvent::Done);
    }
}

/// Packages are removed last: when the loader is in use, the kept generations are recorded if there
/// are generated packages, others wait no longer, and there was something that no kept generation
/// needs.
pub proof fn law_removed_last(
    has_ft: bool,
    has_index: bool,
    has_packages: bool,
    has_controls: bool,
    events: Seq<InstallEvent>,
)
    ensures
        ({
            let start = install::started(has_ft, has_index, has_packages, has_controls);
            let s = install::run(start, events);
            &&& s.step == InstallStep::WriteRegistry ==> has_controls && s.pointer_swapped
            &&& s.step == InstallStep::Unlock ==> s.pointer_swapped && (has_controls ==> passed(
                start,
                events,
                InstallStep::WriteRegistry,
            ))
            &&& cleans_up(s) ==> s.pointer_swapped && !s.locked && passed(
                start,
                events,
                InstallStep::Unlock,
            ) && (has_controls ==> passed(start, events, InstallStep::WriteRegistry))
            &&& s.step == InstallStep::RemovePackages ==> ended(
                start,
                events,
                InstallStep::CollectRetained,
                InstallEvent::Yes,
            ) && passed(start, events, InstallStep::CollectRetained)
            &&& s.step == InstallStep::RemoveLoaders ==> passed(
                start,
                events,
                InstallStep::CollectRetained,
            ) && (ended(start, events, InstallStep::CollectRetained, InstallEvent::Yes) ==> passed(
                start,
                events,
                InstallStep::RemovePackages,
            ))
        }),
    decreases events.len(),
{
    let start = install::started(has_ft, has_index, has_packages, has_controls);
    lemma_kept(start, events);
    install::law_pointer_last(has_ft, has_index, has_packages, has_controls, events);
    if events.len() > 0 {
        let front = events.drop_last();
        law_removed_last(has_ft, has_index, has_packages, has_controls, front);
        install::law_pointer_last(has_ft, has_index, has_packages, has_controls, front);
        law_state_is_what_happened(has_ft, has_index, has_packages, has_controls, front);
        lemma_kept(start, front);
        lemma_not_yet(start, front);
        lemma_passed(start, events, InstallStep::WriteRegistry, InstallEvent::Done);
        lemma_passed(start, events, InstallStep::Unlock, InstallEvent::Done);
        lemma_passed(start, events, InstallStep::CollectRetained, InstallEvent::Yes);
        lemma_passed(start, events, InstallStep::RemovePackages, InstallEvent::Done);
    } else {
        lemma_nothing_passed(start, events, InstallStep::CollectRetained, InstallEvent::Yes);
    }
}

/// Whoever is still to look at old packages has not looked at them.
proof fn lemma_not_yet(start: Installation, events: Seq<InstallEvent>)
    requires
        exists|a: bool, b: bool, c: bool, d: bool| start == #[trigger] install::started(a, b, c, d),
    ensures
        ({
            let s = install::run(start, events);
            s.step != InstallStep::RemovePackages && s.step != InstallStep::RemoveLoaders && s.step
                != InstallStep::Finished && s.step != InstallStep::Failed ==> !ended(
                start,
                events,
                InstallStep::CollectRetained,
                InstallEvent::Yes,
            )
        }),
    decreases events.len(),
{
    if events.len() > 0 {
        lemma_not_yet(start, events.drop_last());
        lemma_passed(start, events, InstallStep::CollectRetained, InstallEvent::Yes);
    }
}

/// An installation ends well in one of two ways: the generation was current, at once or because
/// another run has published it meanwhile, and then this one has published nothing; or the loader
/// is in use, old packages and loaders were looked after, and others do not wait.
pub proof fn law_two_ends(
    has_ft: bool,
    has_index: bool,
    has_packages: bool,
    has_controls: bool,
    events: Seq<InstallEvent>,
)
    ensures
        ({
            let start = install::started(has_ft, has_index, has_packages, has_controls);
            let s = install::run(start, events);
            let current = ended(start, events, InstallStep::CheckCurrent, InstallEvent::Yes)
                || ended(start, events, InstallStep::CheckAgain, InstallEvent::Yes);
            &&& current ==> !s.packages_published && !s.pointer_swapped && (s.step
                == InstallStep::Finished || s.step == InstallStep::DiscardStaging)
            &&& s.step == InstallStep::DiscardStaging ==> current
            &&& s.step == InstallStep::Finished && !current ==> s.packages_published
                && s.pointer_swapped && passed(start, events, InstallStep::CollectRetained)
            &&& s.step == InstallStep::Finished || s.step == InstallStep::Failed ==> !s.locked
        }),
    decreases events.len(),
{
    let start = install::started(has_ft, has_index, has_packages, has_controls);
    lemma_kept(start, events);
    install::law_pointer_last(has_ft, has_index, has_packages, has_controls, events);
    if events.len() > 0 {
        let front = events.drop_last();
        law_two_ends(has_ft, has_index, has_packages, has_controls, front);
        install::law_pointer_last(has_ft, has_index, has_packages, has_controls, front);
        law_removed_last(has_ft, has_index, has_packages, has_controls, front);
        lemma_passed(start, events, InstallStep::CheckCurrent, InstallEvent::Yes);
        lemma_passed(start, events, InstallStep::CheckAgain, InstallEvent::Yes);
        lemma_passed(start, events, InstallStep::CollectRetained, InstallEvent::Done);
    }
}

/// The failure of the step ends an installation.
pub open spec fn must_work(step: InstallStep) -> bool {
    step == InstallStep::CreateStaging || step == InstallStep::CopyPackages || step
        == InstallStep::Helptags || step == InstallStep::ScanFtplugins || step == InstallStep::Lock
        || step == InstallStep::PublishPackages || step == InstallStep::WriteManifest || step
        == InstallStep::SwapLink || step == InstallStep::WritePlainLoader || step
        == InstallStep::WriteRegistry || step == InstallStep::Unlock || step
        == InstallStep::CollectRetained || step == InstallStep::RemovePackages
}

/// An installation fails exactly if a step fails that must work; then nothing more is done.
pub proof fn law_fails_when_a_step_fails(s: Installation, event: InstallEvent, events: Seq<InstallEvent>)
    requires
        s.step != InstallStep::Failed,
    ensures
        install::advanced(s, event).step == InstallStep::Failed <==> must_work(s.step) && event
            == InstallEvent::Error,
        must_work(s.step) && event == InstallEvent::Error ==> {
            let after = install::advanced(s, event);
            &&& install::run(after, events) == after
            &&& after.packages_published == s.packages_published
            &&& after.manifest_written == s.manifest_written
            &&& after.pointer_swapped == s.pointer_swapped
        },
    decreases events.len(),
{
    if events.len() > 0 {
        law_fails_when_a_step_fails(s, event, events.drop_last());
    }
}

/// How many more steps there are at most.
spec fn left(step: InstallStep) -> int {
    match step {
        InstallStep::CheckCurrent => 17,
        InstallStep::CleanStaging => 16,
        InstallStep::CreateStaging => 15,
        InstallStep::CopyPackages => 14,
        InstallStep::Helptags => 13,
        InstallStep::ScanFtplugins => 12,
        InstallStep::Lock => 11,
        InstallStep::CheckAgain => 10,
        InstallStep::DiscardStaging => 1,
        InstallStep::PublishPackages => 9,
        InstallStep::WriteManifest => 8,
        InstallStep::SwapLink => 7,
        InstallStep::WritePlainLoader => 7,
        InstallStep::WriteRegistry => 6,
        InstallStep::Unlock => 5,
        InstallStep::CollectRetained => 4,
        InstallStep::RemovePackages => 3,
        InstallStep::RemoveLoaders => 2,
        _ => 0,
    }
}

proof fn lemma_left(
    has_ft: bool,
    has_index: bool,
    has_packages: bool,
    has_controls: bool,
    events: Seq<InstallEvent>,
)
    ensures
        left(
            install::run(
                install::started(has_ft, has_index, has_packages, has_controls),
                events,
            ).step,
        ) <= vstd::math::max(17 - events.len(), 0),
    decreases events.len(),
{
    if events.len() > 0 {
        lemma_left(has_ft, has_index, has_packages, has_controls, events.drop_last());
    }
}

/// An installation is over after seventeen steps.  If none of them failed and the generation was
/// not current, then its packages are published, it is recorded if there are generated packages,
/// and its loader is in use.
pub proof fn law_installs(
    has_ft: bool,
    has_index: bool,
    has_packages: bool,
    has_controls: bool,
    events: Seq<InstallEvent>,
)
    requires
        events.len() >= 17,
    ensures
        ({
            let start = install::started(has_ft, has_index, has_packages, has_controls);
            let s = install::run(start, events);
            &&& s.step == InstallStep::Finished || s.step == InstallStep::Failed
            &&& !events.contains(InstallEvent::Error) ==> s.step == InstallStep::Finished
            &&& !events.contains(InstallEvent::Error) && !ended(
                start,
                events,
                InstallStep::CheckCurrent,
                InstallEvent::Yes,
            ) && !ended(start, events, InstallStep::CheckAgain, InstallEvent::Yes)
                ==> s.packages_published && s.manifest_written == has_controls
                && s.pointer_swapped
        }),
{
    lemma_left(has_ft, has_index, has_packages, has_controls, events);
    if !events.contains(InstallEvent::Error) {
        lemma_no_failure(has_ft, has_index, has_packages, has_controls, events);
    }
    law_two_ends(has_ft, has_index, has_packages, has_controls, events);
    law_state_is_what_happened(has_ft, has_index, has_packages, has_controls, events);
}

proof fn lemma_no_failure(
    has_ft: bool,
    has_index: bool,
    has_packages: bool,
    has_controls: bool,
    events: Seq<InstallEvent>,
)
    requires
        !events.contains(InstallEvent::Error),
    ensures
        install::run(
            install::started(has_ft, has_index, has_packages, has_controls),
            events,
        ).step != InstallStep::Failed,
    decreases events.len(),
{
    if events.len() > 0 {
        assert(events.contains(events.last()));
        assert(!events.drop_last().contains(InstallEvent::Error)) by {
            if events.drop_last().contains(InstallEvent::Error) {
                let i = choose|i: int|
                    0 <= i < events.drop_last().len() && events.drop_last()[i]
                        == InstallEvent::Error;
                assert(events[i] == InstallEvent::Error);
            }
        }
        lemma_no_failure(has_ft, has_index, has_packages, has_controls, events.drop_last());
    }
}

/// An installation begins by asking whether the generation is current, unless there are file types
/// whose plugins inventories do not tell of; and it begins with nothing published and nobody
/// waiting.
pub proof fn law_beginning(has_ft: bool, has_index: bool, has_packages: bool, has_controls: bool)
    ensures
        ({
            let s = install::started(has_ft, has_index, has_packages, has_controls);
            &&& has_ft && has_packages && !has_index ==> s.step == InstallStep::CleanStaging
            &&& !has_ft ==> s.step == InstallStep::CheckCurrent
            &&& has_index ==> s.step == InstallStep::CheckCurrent
            &&& !has_packages ==> s.step == InstallStep::CheckCurrent
            &&& s.has_controls == has_controls
            &&& s.has_index == has_index
            &&& !s.packages_published && !s.manifest_written && !s.pointer_swapped && !s.locked
        }),
{
}

} // verus!
