//! How packages are copied.

use crate::install;
use crate::install::{
    CopyAction, CopyEvent, CopyStrategy, ErrorNumbers, Package, PackageAction, Platform, TreeAction,
};
use crate::path::Part;
use vstd::prelude::*;

verus! {

/// A package lists `.git` at its top.
pub open spec fn lists_git(package: Package) -> bool {
    exists|i: int|
        0 <= i < package.entries.len() && (#[trigger] package.entries[i]).0.len() == 1
            && package.entries[i].0[0] == Part::Normal(".git"@)
}

/// A package is left alone exactly if it is published, and copied exactly if it is not and has all
/// that it needs: a package that needs its `.git` is never copied without it.
pub proof fn law_package_action(package: Package, published: bool)
    ensures
        ({
            let action = install::action_for(package, published);
            &&& action == PackageAction::Skip <==> published
            &&& action == PackageAction::Copy <==> !published && (package.dotgit ==> lists_git(
                package,
            ))
            &&& action == PackageAction::DotgitMissing <==> !published && package.dotgit
                && !lists_git(package)
        }),
{
    assert(install::has_dotgit(package) <==> lists_git(package)) by {
        if install::has_dotgit(package) {
            let i = choose|i: int|
                0 <= i < package.entries.len() && (#[trigger] package.entries[i]).0 == seq![
                    Part::Normal(".git"@),
                ];
            assert(package.entries[i].0[0] == Part::Normal(".git"@));
        }
        if lists_git(package) {
            let i = choose|i: int|
                0 <= i < package.entries.len() && (#[trigger] package.entries[i]).0.len() == 1
                    && package.entries[i].0[0] == Part::Normal(".git"@);
            assert(package.entries[i].0 =~= seq![Part::Normal(".git"@)]);
        }
    }
}

/// The system says by the error that it cannot share the content of the two files.
pub open spec fn says_no_sharing(
    platform: Platform,
    numbers: ErrorNumbers,
    errno: Option<i32>,
) -> bool {
    ||| platform == Platform::Other
    ||| errno == Some(numbers.exdev)
    ||| errno == Some(numbers.enosys)
    ||| errno == Some(numbers.eopnotsupp)
    ||| platform == Platform::Linux && errno == Some(numbers.enotty)
    ||| platform == Platform::MacOs && errno == Some(numbers.enotsup)
}

/// An attempt that succeeded finishes the file.  A file that is there is copied over, unless it was
/// copied to already.  An attempt to share content is made again by copying where the system cannot
/// share it, and one to link files only where they are on different devices.  Every other error is
/// handed on, and then files are copied as before.
pub proof fn law_copy_attempt(
    strategy: CopyStrategy,
    platform: Platform,
    numbers: ErrorNumbers,
    event: CopyEvent,
)
    ensures
        ({
            let (next, action) = install::after_attempt(strategy, platform, numbers, event);
            &&& action == CopyAction::Finish <==> event == CopyEvent::Done
            &&& action == CopyAction::Overwrite <==> event == CopyEvent::AlreadyExists && strategy
                != CopyStrategy::Copy
            &&& action == CopyAction::Retry <==> (event matches CopyEvent::Error(errno) && ((strategy
                == CopyStrategy::Reflink && says_no_sharing(platform, numbers, errno)) || (strategy
                == CopyStrategy::Hardlink && errno == Some(numbers.exdev))))
            &&& action == CopyAction::Retry ==> next == CopyStrategy::Copy
            &&& action != CopyAction::Retry ==> next == strategy
        }),
{
}

/// A directory is in place once it was placed as a whole.  Where there is something already, or the
/// system cannot share it, its files are placed one by one, in the latter case by copying; every
/// other error is handed on.
pub proof fn law_tree_attempt(
    strategy: CopyStrategy,
    platform: Platform,
    numbers: ErrorNumbers,
    event: CopyEvent,
)
    ensures
        ({
            let (next, action) = install::after_tree_attempt(strategy, platform, numbers, event);
            &&& action == TreeAction::Finish <==> event == CopyEvent::Done
            &&& action == TreeAction::Fail <==> (event matches CopyEvent::Error(errno)
                && !says_no_sharing(platform, numbers, errno))
            &&& next != strategy ==> next == CopyStrategy::Copy && action == TreeAction::Walk
            &&& event is Error && action == TreeAction::Walk ==> next == CopyStrategy::Copy
            &&& event == CopyEvent::AlreadyExists ==> next == strategy
        }),
{
}

/// A directory is tried as a whole only where its content can be shared and the system can share a
/// directory.
pub proof fn law_trees_are_shared(platform: Platform, strategy: CopyStrategy)
    ensures
        install::shares_trees(platform, strategy) <==> platform == Platform::MacOs && strategy
            == CopyStrategy::Reflink,
{
}

/// What the editor reads of a text in a command: a backslash takes the next character as it is.
pub open spec fn unescaped(s: Seq<char>) -> Seq<char>
    decreases s.len(),
{
    if s.len() == 0 {
        Seq::empty()
    } else if s[0] == '\\' && s.len() > 1 {
        seq![s[1]] + unescaped(s.skip(2))
    } else {
        seq![s[0]] + unescaped(s.skip(1))
    }
}

proof fn lemma_escaped_first(s: Seq<char>)
    requires
        s.len() > 0,
    ensures
        install::escaped(s) == install::escaped_char(s[0]) + install::escaped(s.skip(1)),
    decreases s.len(),
{
    let front = s.drop_last();
    let rest = s.skip(1);
    if s.len() == 1 {
        assert(front =~= Seq::<char>::empty());
        assert(rest =~= Seq::<char>::empty());
        assert(install::escaped(s) =~= install::escaped_char(s[0]) + install::escaped(rest));
    } else {
        lemma_escaped_first(front);
        assert(rest.drop_last() =~= front.skip(1));
        assert(rest.last() == s.last());
        assert(install::escaped(s) =~= install::escaped_char(s[0]) + install::escaped(rest));
    }
}

/// The editor reads the path of a directory back as it is.
pub proof fn law_path_reads_back(dir: Seq<char>)
    ensures
        unescaped(install::escaped(dir)) == dir,
    decreases dir.len(),
{
    if dir.len() > 0 {
        let rest = dir.skip(1);
        let tail = install::escaped(rest);
        let all = install::escaped(dir);
        lemma_escaped_first(dir);
        law_path_reads_back(rest);
        let head = install::escaped_char(dir[0]);
        if dir[0] == '\\' || dir[0] == ' ' || dir[0] == '|' {
            assert(all[0] == '\\' && all[1] == dir[0]);
            assert(all.skip(2) =~= tail);
        } else {
            assert(all[0] == dir[0]);
            assert(all.skip(1) =~= tail);
        }
        assert(seq![dir[0]] + rest =~= dir);
    }
}

/// No blank and no bar of the path ends the command or its argument: each stands behind a
/// backslash.
pub proof fn law_path_is_one_argument(dir: Seq<char>, i: int)
    requires
        0 <= i < install::escaped(dir).len(),
        install::escaped(dir)[i] == ' ' || install::escaped(dir)[i] == '|',
    ensures
        i > 0 && install::escaped(dir)[i - 1] == '\\',
    decreases dir.len(),
{
    if dir.len() > 0 {
        let front = install::escaped(dir.drop_last());
        if i < front.len() {
            assert(front[i] == install::escaped(dir)[i]);
            law_path_is_one_argument(dir.drop_last(), i);
            assert(front[i - 1] == install::escaped(dir)[i - 1]);
        }
    }
}

/// At least two packages and at most sixteen are copied at a time, and between these two for each
/// processor.
pub proof fn law_copy_budget(cpus: int)
    ensures
        2 <= install::budget_for(cpus) <= 16,
        1 <= cpus <= 8 ==> install::budget_for(cpus) == 2 * cpus,
        cpus > 8 ==> install::budget_for(cpus) == 16,
{
}

/// Content is shared at first on every system that can share it, and nowhere else.
pub proof fn law_first_strategy(platform: Platform)
    ensures
        install::first_strategy(platform) == CopyStrategy::Reflink <==> platform == Platform::Linux
            || platform == Platform::MacOs,
        install::first_strategy(platform) == CopyStrategy::Copy <==> platform == Platform::Other,
{
}

/// A directory is removed only if its name is that of a private one, never while its owner is alive,
/// and never early where nothing tells of an owner; of an owner that is gone it always is.
pub proof fn law_left_over(tail: Seq<char>, owner_alive: Option<bool>, old_enough: bool, name: Seq<char>)
    ensures
        install::is_left_over(".staging-"@ + tail, Some(false), old_enough),
        install::is_left_over(".staging-"@ + tail, None, true),
        !install::is_left_over(name, Some(true), old_enough),
        !install::is_left_over(name, None, false),
        install::is_left_over(name, owner_alive, old_enough) ==> ".staging-"@.is_prefix_of(name),
{
    let head = ".staging-"@;
    assert(head =~= (head + tail).subrange(0, head.len() as int));
}

} // verus!
