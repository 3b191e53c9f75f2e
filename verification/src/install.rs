//! The course of an installation, and the decisions along it.

use crate::pack_plan::{Files, Package};
use crate::path::{Part, Path};
use crate::text;
use vstd::prelude::*;

pub mod copying;
pub mod laws;

verus! {

/// What an installation does next.
#[derive(Clone, Copy, Debug, PartialEq, Eq, Structural)]
pub enum InstallStep {
    /// Find out whether the generation is current.
    CheckCurrent,
    /// Remove what crashed runs left behind.
    CleanStaging,
    /// Make a private directory.
    CreateStaging,
    /// Copy the packages that are not there yet.
    CopyPackages,
    /// Generate help tags in the private directory.
    Helptags,
    /// Look for file type plugins.
    ScanFtplugins,
    /// Wait for other publications.
    Lock,
    /// Find out whether another run has published the generation meanwhile.
    CheckAgain,
    /// Give up the private directory.
    DiscardStaging,
    /// Move the packages into place.
    PublishPackages,
    /// Record the generation.
    WriteManifest,
    /// Let a link point to the loader of the generation.
    SwapLink,
    /// Write a loader without packages.
    WritePlainLoader,
    /// Record which generations are kept.
    WriteRegistry,
    /// Let other publications go on.
    Unlock,
    /// Find out what earlier generations need.
    CollectRetained,
    /// Remove packages that no kept generation needs.
    RemovePackages,
    /// Remove loaders of generations that are gone.
    RemoveLoaders,
    /// All is done.
    Finished,
    /// Something failed.
    Failed,
}

/// How a step ended.
#[derive(Clone, Copy, Debug, PartialEq, Eq, Structural)]
pub enum InstallEvent {
    /// It is done.
    Done,
    /// It is done, and the answer is yes.
    Yes,
    /// It is done, and the answer is no.
    No,
    /// It failed.
    Error,
}

/// The state of an installation.
#[derive(Clone, Copy, Debug, PartialEq, Eq, Structural)]
pub struct Installation {
    pub step: InstallStep,
    /// There are generated packages.
    pub has_controls: bool,
    /// The file type plugins are known from inventories.
    pub has_index: bool,
    /// Packages were moved into place.
    pub packages_published: bool,
    /// The generation was recorded.
    pub manifest_written: bool,
    /// The loader in use is that of the generation.
    pub pointer_swapped: bool,
    /// Other publications wait.
    pub locked: bool,
    /// The removal of packages failed.
    pub cleanup_failed: bool,
}

/// The first step: a generation can only be current if all that makes it up is known.
pub open spec fn started(has_ft: bool, has_index: bool, has_packages: bool, has_controls: bool) -> Installation {
    Installation {
        step: if !has_ft || has_index || !has_packages {
            InstallStep::CheckCurrent
        } else {
            InstallStep::CleanStaging
        },
        has_controls,
        has_index,
        packages_published: false,
        manifest_written: false,
        pointer_swapped: false,
        locked: false,
        cleanup_failed: false,
    }
}

/// The step with nothing else changed.
pub open spec fn at(s: Installation, step: InstallStep) -> Installation {
    Installation { step, ..s }
}

/// The course of an installation.
pub open spec fn advanced(s: Installation, event: InstallEvent) -> Installation {
    match s.step {
        InstallStep::Finished => s,
        InstallStep::Failed => s,
        InstallStep::RemovePackages => Installation {
            step: if event == InstallEvent::Error {
                InstallStep::Failed
            } else {
                InstallStep::RemoveLoaders
            },
            cleanup_failed: event == InstallEvent::Error,
            ..s
        },
        InstallStep::RemoveLoaders => at(s, InstallStep::Finished),
        InstallStep::CleanStaging => at(s, InstallStep::CreateStaging),
        InstallStep::DiscardStaging => Installation {
            step: InstallStep::Finished,
            locked: false,
            ..s
        },
        InstallStep::CheckCurrent => if event == InstallEvent::Yes {
            at(s, InstallStep::Finished)
        } else {
            at(s, InstallStep::CleanStaging)
        },
        InstallStep::CheckAgain => if event == InstallEvent::Yes {
            at(s, InstallStep::DiscardStaging)
        } else {
            at(s, InstallStep::PublishPackages)
        },
        _ => if event == InstallEvent::Error {
            Installation { step: InstallStep::Failed, locked: false, ..s }
        } else {
            match s.step {
                InstallStep::CreateStaging => at(s, InstallStep::CopyPackages),
                InstallStep::CopyPackages => at(s, InstallStep::Helptags),
                InstallStep::Helptags => if s.has_index {
                    at(s, InstallStep::Lock)
                } else {
                    at(s, InstallStep::ScanFtplugins)
                },
                InstallStep::ScanFtplugins => at(s, InstallStep::Lock),
                InstallStep::Lock => Installation {
                    step: InstallStep::CheckAgain,
                    locked: true,
                    ..s
                },
                InstallStep::PublishPackages => Installation {
                    step: if s.has_controls {
                        InstallStep::WriteManifest
                    } else {
                        InstallStep::WritePlainLoader
                    },
                    packages_published: true,
                    ..s
                },
                InstallStep::WriteManifest => Installation {
                    step: InstallStep::SwapLink,
                    manifest_written: true,
                    ..s
                },
                InstallStep::SwapLink => Installation {
                    step: InstallStep::WriteRegistry,
                    pointer_swapped: true,
                    ..s
                },
                InstallStep::WritePlainLoader => Installation {
                    step: InstallStep::Unlock,
                    pointer_swapped: true,
                    ..s
                },
                InstallStep::WriteRegistry => at(s, InstallStep::Unlock),
                InstallStep::Unlock => Installation {
                    step: InstallStep::CollectRetained,
                    locked: false,
                    ..s
                },
                InstallStep::CollectRetained => if event == InstallEvent::Yes {
                    at(s, InstallStep::RemovePackages)
                } else {
                    at(s, InstallStep::RemoveLoaders)
                },
                _ => s,
            }
        },
    }
}

/// The state after a course of events.
pub open spec fn run(s: Installation, events: Seq<InstallEvent>) -> Installation
    decreases events.len(),
{
    if events.len() == 0 {
        s
    } else {
        advanced(run(s, events.drop_last()), events.last())
    }
}

impl Installation {
    /// Starts an installation.
    pub fn new(has_ft: bool, has_index: bool, has_packages: bool, has_controls: bool) -> (s:
        Installation)
        ensures
            s == started(has_ft, has_index, has_packages, has_controls),
    {
        Installation {
            step: if !has_ft || has_index || !has_packages {
                InstallStep::CheckCurrent
            } else {
                InstallStep::CleanStaging
            },
            has_controls,
            has_index,
            packages_published: false,
            manifest_written: false,
            pointer_swapped: false,
            locked: false,
            cleanup_failed: false,
        }
    }

    /// Takes how the current step ended, and goes to the next.
    pub fn advance(&mut self, event: InstallEvent)
        ensures
            *final(self) == advanced(*old(self), event),
    {
        let failed = event == InstallEvent::Error;
        let yes = event == InstallEvent::Yes;
        match self.step {
            InstallStep::Finished | InstallStep::Failed => {},
            InstallStep::RemovePackages => {
                self.cleanup_failed = failed;
                self.step = if failed {
                    InstallStep::Failed
                } else {
                    InstallStep::RemoveLoaders
                };
            },
            InstallStep::RemoveLoaders => {
                self.step = InstallStep::Finished;
            },
            InstallStep::CleanStaging => {
                self.step = InstallStep::CreateStaging;
            },
            InstallStep::DiscardStaging => {
                self.locked = false;
                self.step = InstallStep::Finished;
            },
            InstallStep::CheckCurrent => {
                self.step = if yes {
                    InstallStep::Finished
                } else {
                    InstallStep::CleanStaging
                };
            },
            InstallStep::CheckAgain => {
                self.step = if yes {
                    InstallStep::DiscardStaging
                } else {
                    InstallStep::PublishPackages
                };
            },
            _ if failed => {
                self.locked = false;
                self.step = InstallStep::Failed;
            },
            InstallStep::CreateStaging => {
                self.step = InstallStep::CopyPackages;
            },
            InstallStep::CopyPackages => {
                self.step = InstallStep::Helptags;
            },
            InstallStep::Helptags => {
                self.step = if self.has_index {
                    InstallStep::Lock
                } else {
                    InstallStep::ScanFtplugins
                };
            },
            InstallStep::ScanFtplugins => {
                self.step = InstallStep::Lock;
            },
            InstallStep::Lock => {
                self.locked = true;
                self.step = InstallStep::CheckAgain;
            },
            InstallStep::PublishPackages => {
                self.packages_published = true;
                self.step = if self.has_controls {
                    InstallStep::WriteManifest
                } else {
                    InstallStep::WritePlainLoader
                };
            },
            InstallStep::WriteManifest => {
                self.manifest_written = true;
                self.step = InstallStep::SwapLink;
            },
            InstallStep::SwapLink => {
                self.pointer_swapped = true;
                self.step = InstallStep::WriteRegistry;
            },
            InstallStep::WritePlainLoader => {
                self.pointer_swapped = true;
                self.step = InstallStep::Unlock;
            },
            InstallStep::WriteRegistry => {
                self.step = InstallStep::Unlock;
            },
            InstallStep::Unlock => {
                self.locked = false;
                self.step = InstallStep::CollectRetained;
            },
            InstallStep::CollectRetained => {
                self.step = if yes {
                    InstallStep::RemovePackages
                } else {
                    InstallStep::RemoveLoaders
                };
            },
        }
    }
}

/// What every state of an installation keeps.
pub open spec fn orderly(s: Installation) -> bool {
    let before_publishing = match s.step {
        InstallStep::CheckCurrent => true,
        InstallStep::CleanStaging => true,
        InstallStep::CreateStaging => true,
        InstallStep::CopyPackages => true,
        InstallStep::Helptags => true,
        InstallStep::ScanFtplugins => true,
        InstallStep::Lock => true,
        InstallStep::CheckAgain => true,
        InstallStep::DiscardStaging => true,
        InstallStep::PublishPackages => true,
        _ => false,
    };
    let publishing = match s.step {
        InstallStep::WriteManifest => true,
        InstallStep::SwapLink => true,
        InstallStep::WritePlainLoader => true,
        _ => false,
    };
    let after_swap = match s.step {
        InstallStep::WriteRegistry => true,
        InstallStep::Unlock => true,
        InstallStep::CollectRetained => true,
        InstallStep::RemovePackages => true,
        InstallStep::RemoveLoaders => true,
        _ => false,
    };
    let under_lock = match s.step {
        InstallStep::CheckAgain => true,
        InstallStep::DiscardStaging => true,
        InstallStep::PublishPackages => true,
        InstallStep::WriteManifest => true,
        InstallStep::SwapLink => true,
        InstallStep::WritePlainLoader => true,
        InstallStep::WriteRegistry => true,
        InstallStep::Unlock => true,
        _ => false,
    };
    &&& s.locked == under_lock
    &&& s.manifest_written ==> s.packages_published
    &&& s.pointer_swapped ==> s.packages_published && (s.has_controls ==> s.manifest_written)
    &&& before_publishing ==> !s.packages_published
    &&& publishing ==> s.packages_published && !s.pointer_swapped
    &&& s.step == InstallStep::SwapLink ==> s.manifest_written
    &&& s.step == InstallStep::WritePlainLoader ==> !s.has_controls
    &&& s.step == InstallStep::WriteManifest ==> s.has_controls
    &&& after_swap ==> s.pointer_swapped
    &&& s.step == InstallStep::Finished ==> s.packages_published == s.pointer_swapped
}

/// In every course of events the loader is swapped last: a generation comes into use only when its
/// packages are in place and it is recorded, so a run that fails before that leaves the generation
/// in use as it was.  What others can see is changed only while they wait.
pub proof fn law_pointer_last(
    has_ft: bool,
    has_index: bool,
    has_packages: bool,
    has_controls: bool,
    events: Seq<InstallEvent>,
)
    ensures
        orderly(run(started(has_ft, has_index, has_packages, has_controls), events)),
    decreases events.len(),
{
    if events.len() > 0 {
        law_pointer_last(has_ft, has_index, has_packages, has_controls, events.drop_last());
    }
}

/// A generation that is current from the start is left as it is: nothing is copied or published.
pub proof fn law_current_is_left(has_ft: bool, has_index: bool, has_packages: bool, has_controls: bool)
    requires
        !has_ft || has_index || !has_packages,
    ensures
        ({
            let s = run(
                started(has_ft, has_index, has_packages, has_controls),
                seq![InstallEvent::Yes],
            );
            s.step == InstallStep::Finished && !s.packages_published && !s.pointer_swapped
        }),
{
    let first = started(has_ft, has_index, has_packages, has_controls);
    let events = seq![InstallEvent::Yes];
    assert(events.drop_last() =~= Seq::<InstallEvent>::empty());
    assert(run(first, events.drop_last()) == first);
}

/// What is done with a package.
#[derive(Clone, Copy, Debug, PartialEq, Eq, Structural)]
pub enum PackageAction {
    /// It is there already.
    Skip,
    /// It cannot be installed without `.git`, which its snapshot lacks.
    DotgitMissing,
    /// It is copied.
    Copy,
}

/// `.git` is among the entries.
pub open spec fn has_dotgit(package: Package) -> bool {
    exists|i: int|
        0 <= i < package.entries.len() && (#[trigger] package.entries[i]).0 == seq![
            Part::Normal(".git"@),
        ]
}

/// What is done with a package.
pub open spec fn action_for(package: Package, published: bool) -> PackageAction {
    if published {
        PackageAction::Skip
    } else if package.dotgit && !has_dotgit(package) {
        PackageAction::DotgitMissing
    } else {
        PackageAction::Copy
    }
}

/// What is done with a package, whether it is there already or not.
pub fn package_action(package: &Files, published: bool) -> (action: PackageAction)
    ensures
        action == action_for(package@, published),
{
    if published {
        return PackageAction::Skip;
    }
    if !package.dotgit {
        return PackageAction::Copy;
    }
    let ghost entries = package@.entries;
    let dotgit = Path::empty().child(".git");
    assert(dotgit@ =~= seq![Part::Normal(".git"@)]);
    let mut i: usize = 0;
    while i < package.entries.len()
        invariant
            i <= package.entries@.len(),
            entries == package@.entries,
            dotgit@ == seq![Part::Normal(".git"@)],
            forall|k: int| 0 <= k < i ==> (#[trigger] entries[k]).0 != dotgit@,
            package.dotgit,
            !published,
        decreases package.entries@.len() - i,
    {
        assert(entries[i as int].0 == package.entries@[i as int].0@);
        if package.entries[i].0.same(&dotgit) {
            assert(has_dotgit(package@));
            return PackageAction::Copy;
        }
        i = i + 1;
    }
    PackageAction::DotgitMissing
}

/// How many packages are copied at a time on so many processors.
pub open spec fn budget_for(cpus: int) -> int {
    if cpus <= 1 {
        2
    } else if cpus >= 8 {
        16
    } else {
        2 * cpus
    }
}

/// How many packages are copied at a time: two per processor, but at least two and at most
/// sixteen.
pub fn copy_budget(cpus: usize) -> (budget: usize)
    ensures
        budget == budget_for(cpus as int),
{
    if cpus <= 1 {
        2
    } else if cpus >= 8 {
        16
    } else {
        2 * cpus
    }
}

/// How files are copied.
#[derive(Clone, Copy, Debug, PartialEq, Eq, Structural)]
pub enum CopyStrategy {
    /// Shares the content until one copy is written to.
    Reflink,
    /// Shares the content.  Published packages are not made this way.
    Hardlink,
    /// Copies the content.
    Copy,
}

/// The system that files are copied on.
#[derive(Clone, Copy, Debug, PartialEq, Eq, Structural)]
pub enum Platform {
    Linux,
    MacOs,
    Other,
}

/// The numbers that the system gives to the errors that matter here.
#[derive(Clone, Copy, Debug, PartialEq, Eq, Structural)]
pub struct ErrorNumbers {
    /// The operation is not one for the device.
    pub enotty: i32,
    /// The function is not implemented.
    pub enosys: i32,
    /// The operation is not supported on the file.
    pub eopnotsupp: i32,
    /// The operation is not supported.
    pub enotsup: i32,
    /// The files are on different devices.
    pub exdev: i32,
}

/// The error says that content cannot be shared here.  Where no way to share content is known,
/// every error does.
pub open spec fn sharing_unsupported(
    platform: Platform,
    numbers: ErrorNumbers,
    errno: Option<i32>,
) -> bool {
    match platform {
        Platform::Linux => errno == Some(numbers.enotty) || errno == Some(numbers.enosys) || errno
            == Some(numbers.eopnotsupp),
        Platform::MacOs => errno == Some(numbers.enotsup) || errno == Some(numbers.enosys) || errno
            == Some(numbers.eopnotsupp),
        Platform::Other => true,
    }
}

/// After the error another way of copying is worth a try.
pub open spec fn worth_another_way(
    platform: Platform,
    numbers: ErrorNumbers,
    errno: Option<i32>,
) -> bool {
    sharing_unsupported(platform, numbers, errno) || errno == Some(numbers.exdev)
}

/// Whether the error says that content cannot be shared here.
pub fn reflink_unsupported(platform: Platform, numbers: &ErrorNumbers, errno: Option<i32>) -> (unsupported:
    bool)
    ensures
        unsupported == sharing_unsupported(platform, *numbers, errno),
{
    match (platform, errno) {
        (Platform::Linux, Some(code)) => code == numbers.enotty || code == numbers.enosys || code
            == numbers.eopnotsupp,
        (Platform::MacOs, Some(code)) => code == numbers.enotsup || code == numbers.enosys || code
            == numbers.eopnotsupp,
        (Platform::Other, _) => true,
        (_, None) => false,
    }
}

/// Whether another way of copying is worth a try after the error.
pub fn reflink_should_fallback(platform: Platform, numbers: &ErrorNumbers, errno: Option<i32>) -> (fallback:
    bool)
    ensures
        fallback == worth_another_way(platform, *numbers, errno),
{
    reflink_unsupported(platform, numbers, errno) || match errno {
        Some(code) => code == numbers.exdev,
        None => false,
    }
}

/// How an attempt to place a file ended.
#[derive(Clone, Copy, Debug, PartialEq, Eq, Structural)]
pub enum CopyEvent {
    Done,
    /// There is a file already.
    AlreadyExists,
    /// It failed, with the error's number if it has one.
    Error(Option<i32>),
}

/// What is done after an attempt.
#[derive(Clone, Copy, Debug, PartialEq, Eq, Structural)]
pub enum CopyAction {
    /// The file is in place.
    Finish,
    /// The content is copied over the file that is there.
    Overwrite,
    /// The next way is tried.
    Retry,
    /// The error is handed on.
    Fail,
}

/// What follows an attempt, and how files are copied from then on.
pub open spec fn after_attempt(
    strategy: CopyStrategy,
    platform: Platform,
    numbers: ErrorNumbers,
    event: CopyEvent,
) -> (CopyStrategy, CopyAction) {
    match event {
        CopyEvent::Done => (strategy, CopyAction::Finish),
        CopyEvent::AlreadyExists => if strategy == CopyStrategy::Copy {
            (strategy, CopyAction::Fail)
        } else {
            (strategy, CopyAction::Overwrite)
        },
        CopyEvent::Error(errno) => match strategy {
            CopyStrategy::Reflink => if worth_another_way(platform, numbers, errno) {
                (CopyStrategy::Copy, CopyAction::Retry)
            } else {
                (strategy, CopyAction::Fail)
            },
            CopyStrategy::Hardlink => if errno == Some(numbers.exdev) {
                (CopyStrategy::Copy, CopyAction::Retry)
            } else {
                (strategy, CopyAction::Fail)
            },
            CopyStrategy::Copy => (strategy, CopyAction::Fail),
        },
    }
}

/// A directory is tried to be placed as a whole: only where the system can share one.
pub open spec fn shares_trees(platform: Platform, strategy: CopyStrategy) -> bool {
    platform == Platform::MacOs && strategy == CopyStrategy::Reflink
}

/// What is done after an attempt to place a directory as a whole.
#[derive(Clone, Copy, Debug, PartialEq, Eq, Structural)]
pub enum TreeAction {
    /// The directory is in place.
    Finish,
    /// Its files are placed one by one.
    Walk,
    /// The error is handed on.
    Fail,
}

/// What follows an attempt to place a directory as a whole, and how files are copied from then on.
pub open spec fn after_tree_attempt(
    strategy: CopyStrategy,
    platform: Platform,
    numbers: ErrorNumbers,
    event: CopyEvent,
) -> (CopyStrategy, TreeAction) {
    match event {
        CopyEvent::Done => (strategy, TreeAction::Finish),
        CopyEvent::AlreadyExists => (strategy, TreeAction::Walk),
        CopyEvent::Error(errno) => if worth_another_way(platform, numbers, errno) {
            (CopyStrategy::Copy, TreeAction::Walk)
        } else {
            (strategy, TreeAction::Fail)
        },
    }
}

/// A strategy and those that may follow it.
pub open spec fn strategy_rank(strategy: CopyStrategy) -> int {
    match strategy {
        CopyStrategy::Reflink => 0,
        CopyStrategy::Hardlink => 1,
        CopyStrategy::Copy => 2,
    }
}

/// How files are copied at first.
pub open spec fn first_strategy(platform: Platform) -> CopyStrategy {
    if platform == Platform::Other {
        CopyStrategy::Copy
    } else {
        CopyStrategy::Reflink
    }
}

impl CopyStrategy {
    /// How files are copied at first: their content is shared where a way to do so is known.
    pub fn initial(platform: Platform) -> (strategy: CopyStrategy)
        ensures
            strategy == first_strategy(platform),
    {
        match platform {
            Platform::Linux => CopyStrategy::Reflink,
            Platform::MacOs => CopyStrategy::Reflink,
            Platform::Other => CopyStrategy::Copy,
        }
    }

    /// Takes how an attempt ended, and says what to do.
    pub fn advance_strategy(&mut self, platform: Platform, numbers: &ErrorNumbers, event: CopyEvent) -> (action:
        CopyAction)
        ensures
            (*final(self), action) == after_attempt(*old(self), platform, *numbers, event),
    {
        match event {
            CopyEvent::Done => CopyAction::Finish,
            CopyEvent::AlreadyExists => if *self == CopyStrategy::Copy {
                CopyAction::Fail
            } else {
                CopyAction::Overwrite
            },
            CopyEvent::Error(errno) => {
                let retry = match *self {
                    CopyStrategy::Reflink => reflink_should_fallback(platform, numbers, errno),
                    CopyStrategy::Hardlink => match errno {
                        Some(code) => code == numbers.exdev,
                        None => false,
                    },
                    CopyStrategy::Copy => false,
                };
                if retry {
                    *self = CopyStrategy::Copy;
                    CopyAction::Retry
                } else {
                    CopyAction::Fail
                }
            },
        }
    }

    /// Whether directories are tried to be placed as a whole.
    pub fn tries_trees(&self, platform: Platform) -> (tries: bool)
        ensures
            tries == shares_trees(platform, *self),
    {
        platform == Platform::MacOs && *self == CopyStrategy::Reflink
    }

    /// Takes how an attempt to place a directory as a whole ended, and says what to do.
    pub fn advance_tree(&mut self, platform: Platform, numbers: &ErrorNumbers, event: CopyEvent) -> (action:
        TreeAction)
        ensures
            (*final(self), action) == after_tree_attempt(*old(self), platform, *numbers, event),
    {
        match event {
            CopyEvent::Done => TreeAction::Finish,
            CopyEvent::AlreadyExists => TreeAction::Walk,
            CopyEvent::Error(errno) => if reflink_should_fallback(platform, numbers, errno) {
                *self = CopyStrategy::Copy;
                TreeAction::Walk
            } else {
                TreeAction::Fail
            },
        }
    }
}

/// The way of copying only ever goes on to a later one, never to hard links, and a second try is
/// made only after it went on: so a file takes at most two tries.
pub proof fn law_strategy_advances(
    strategy: CopyStrategy,
    platform: Platform,
    numbers: ErrorNumbers,
    event: CopyEvent,
)
    ensures
        ({
            let (next, action) = after_attempt(strategy, platform, numbers, event);
            &&& strategy_rank(strategy) <= strategy_rank(next)
            &&& next == strategy || next == CopyStrategy::Copy
            &&& action == CopyAction::Retry ==> strategy_rank(strategy) < strategy_rank(next)
        }),
        ({
            let (next, _action) = after_tree_attempt(strategy, platform, numbers, event);
            &&& strategy_rank(strategy) <= strategy_rank(next)
            &&& next == strategy || next == CopyStrategy::Copy
        }),
{
}

/// A private directory is left over.
pub open spec fn is_left_over(name: Seq<char>, owner_alive: Option<bool>, old_enough: bool) -> bool {
    ".staging-"@.is_prefix_of(name) && match owner_alive {
        Some(alive) => !alive,
        None => old_enough,
    }
}

/// Whether a left-over private directory may be removed: its owner is gone, or nothing tells of an
/// owner and it is old.
pub fn staging_removable(name: &str, owner_alive: Option<bool>, old_enough: bool) -> (removable: bool)
    ensures
        removable == is_left_over(name@, owner_alive, old_enough),
{
    text::starts_with(name, ".staging-") && match owner_alive {
        Some(alive) => !alive,
        None => old_enough,
    }
}

/// The name of a private directory.
pub fn staging_name(control_id: &str, pid: usize, nonce: usize) -> (name: String)
    ensures
        name@ == ".staging-"@ + control_id@ + "-"@ + text::decimal_text(pid as nat) + "-"@
            + text::decimal_text(nonce as nat),
{
    let mut name = String::from_str(".staging-");
    name.append(control_id);
    name.append("-");
    name.append(text::decimal(pid).as_str());
    name.append("-");
    name.append(text::decimal(nonce).as_str());
    name
}

/// A private directory is recognised as one.
pub proof fn law_staging_name(control_id: Seq<char>, pid: nat, nonce: nat)
    ensures
        ".staging-"@.is_prefix_of(
            ".staging-"@ + control_id + "-"@ + text::decimal_text(pid) + "-"@ + text::decimal_text(
                nonce,
            ),
        ),
{
    let head = ".staging-"@;
    let name = head + control_id + "-"@ + text::decimal_text(pid) + "-"@ + text::decimal_text(nonce);
    assert(head =~= name.subrange(0, head.len() as int));
}

/// A character as it stands in a command of the editor.
pub open spec fn escaped_char(c: char) -> Seq<char> {
    if c == '\\' || c == ' ' || c == '|' {
        seq!['\\', c]
    } else {
        seq![c]
    }
}

/// A text as it stands in a command of the editor.
pub open spec fn escaped(s: Seq<char>) -> Seq<char>
    decreases s.len(),
{
    if s.len() == 0 {
        Seq::empty()
    } else {
        escaped(s.drop_last()) + escaped_char(s.last())
    }
}

/// The command that generates the help tags of a directory.
pub fn helptags_command(dir: &str) -> (command: String)
    ensures
        command@ == "helptags "@ + escaped(dir@),
{
    let chars = text::chars_of(dir);
    let mut command = String::from_str("helptags ");
    let ghost head = command@;
    let mut i: usize = 0;
    proof {
        assert(chars@.take(0) =~= Seq::<char>::empty());
        assert(head + escaped(chars@.take(0)) =~= head);
    }
    while i < chars.len()
        invariant
            i <= chars@.len(),
            command@ == head + escaped(chars@.take(i as int)),
        decreases chars@.len() - i,
    {
        let c: char = chars[i];
        let ghost before = escaped(chars@.take(i as int));
        proof {
            assert(chars@.take(i as int + 1).drop_last() =~= chars@.take(i as int));
            assert(chars@.take(i as int + 1).last() == c);
        }
        if c == '\\' || c == ' ' || c == '|' {
            text::push_char(&mut command, '\\');
        }
        text::push_char(&mut command, c);
        assert(command@ =~= head + (before + escaped_char(c)));
        i = i + 1;
    }
    assert(chars@.take(i as int) =~= chars@);
    command
}

} // verus!
