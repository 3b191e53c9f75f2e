//! Where configuration comes from.

use crate::order;
use crate::text;
use vstd::prelude::*;

verus! {

/// Why a directory could not be walked.
#[derive(Clone, Copy, Debug, PartialEq, Eq, Structural)]
pub enum WalkErrorKind {
    NotFound,
    NotADirectory,
    PermissionDenied,
    Other,
}

/// The walk goes on after the error.
pub open spec fn passes_over(kind: WalkErrorKind) -> bool {
    !(kind is Other)
}

/// The walk goes on exactly after what is not there, is not a directory or is not open to the user.
pub proof fn law_passes_over(kind: WalkErrorKind)
    ensures
        passes_over(kind) <==> kind == WalkErrorKind::NotFound || kind
            == WalkErrorKind::NotADirectory || kind == WalkErrorKind::PermissionDenied,
{
}

/// Whether the walk goes on: what is not there, not a directory or not open to the user is passed
/// over.
pub fn is_ignorable_walk_error(kind: WalkErrorKind) -> (ignorable: bool)
    ensures
        ignorable == passes_over(kind),
{
    match kind {
        WalkErrorKind::Other => false,
        _ => true,
    }
}

/// A file that is read without a search.
#[derive(Debug, PartialEq, Eq)]
pub enum DirectFile {
    /// The standard input.
    Stdin,
    /// A file by its path.
    Named(String),
}

/// A file that is read without a search.
pub enum Direct {
    Stdin,
    Named(Seq<char>),
}

impl View for DirectFile {
    type V = Direct;

    open spec fn view(&self) -> Direct {
        match self {
            DirectFile::Stdin => Direct::Stdin,
            DirectFile::Named(name) => Direct::Named(name@),
        }
    }
}

pub open spec fn direct_views(list: Seq<DirectFile>) -> Seq<Direct> {
    list.map_values(|d: DirectFile| d@)
}

/// The files among the patterns, in their order; `-` is the standard input.
pub open spec fn direct_of(patterns: Seq<Seq<char>>, is_file: Seq<bool>) -> Seq<Direct>
    decreases patterns.len(),
{
    if patterns.len() == 0 {
        Seq::empty()
    } else {
        let before = direct_of(patterns.drop_last(), is_file);
        if patterns.last() == "-"@ {
            before.push(Direct::Stdin)
        } else if is_file[patterns.len() - 1] {
            before.push(Direct::Named(patterns.last()))
        } else {
            before
        }
    }
}

/// The patterns that are searched for, in their order.
pub open spec fn globs_of(patterns: Seq<Seq<char>>, is_file: Seq<bool>) -> Seq<Seq<char>>
    decreases patterns.len(),
{
    if patterns.len() == 0 {
        Seq::empty()
    } else {
        let before = globs_of(patterns.drop_last(), is_file);
        if patterns.last() == "-"@ || is_file[patterns.len() - 1] {
            before
        } else {
            before.push(patterns.last())
        }
    }
}

/// Patterns by how they are read.
#[derive(Debug)]
pub struct Sources {
    /// Files that are read first.
    pub direct: Vec<DirectFile>,
    /// Patterns that are searched for after them.
    pub globs: Vec<String>,
}

/// Parts the patterns by how they are read, given which of them are files.
pub fn part_patterns(patterns: &Vec<String>, is_file: &Vec<bool>) -> (sources: Sources)
    requires
        is_file@.len() == patterns@.len(),
    ensures
        direct_views(sources.direct@) == direct_of(text::strings(patterns@), is_file@),
        text::strings(sources.globs@) == globs_of(text::strings(patterns@), is_file@),
{
    let ghost all = text::strings(patterns@);
    let mut direct: Vec<DirectFile> = Vec::new();
    let mut globs: Vec<String> = Vec::new();
    let mut i: usize = 0;
    proof {
        assert(all.take(0) =~= Seq::<Seq<char>>::empty());
        assert(direct_views(direct@) =~= Seq::<Direct>::empty());
        assert(text::strings(globs@) =~= Seq::<Seq<char>>::empty());
    }
    while i < patterns.len()
        invariant
            i <= patterns@.len(),
            is_file@.len() == patterns@.len(),
            all == text::strings(patterns@),
            direct_views(direct@) == direct_of(all.take(i as int), is_file@),
            text::strings(globs@) == globs_of(all.take(i as int), is_file@),
        decreases patterns@.len() - i,
    {
        let ghost direct0 = direct@;
        let ghost globs0 = globs@;
        let pattern = &patterns[i];
        proof {
            assert(all.take(i as int + 1).drop_last() =~= all.take(i as int));
            assert(all.take(i as int + 1).last() == pattern@);
        }
        if text::same(pattern.as_str(), "-") {
            direct.push(DirectFile::Stdin);
            assert(direct_views(direct@) =~= direct_views(direct0).push(Direct::Stdin));
        } else if is_file[i] {
            direct.push(DirectFile::Named(pattern.clone()));
            assert(direct_views(direct@) =~= direct_views(direct0).push(Direct::Named(pattern@)));
        } else {
            globs.push(pattern.clone());
            assert(text::strings(globs@) =~= text::strings(globs0).push(pattern@));
        }
        i = i + 1;
    }
    assert(all.take(i as int) =~= all);
    Sources { direct, globs }
}

/// A pattern is read without a search exactly if it is `-`, which is the standard input, or a file;
/// and every other one is searched for.
pub proof fn law_how_patterns_are_read(patterns: Seq<Seq<char>>, is_file: Seq<bool>, p: Seq<char>)
    requires
        is_file.len() == patterns.len(),
    ensures
        direct_of(patterns, is_file).contains(Direct::Stdin) <==> patterns.contains("-"@),
        direct_of(patterns, is_file).contains(Direct::Named(p)) <==> p != "-"@ && exists|i: int|
            0 <= i < patterns.len() && #[trigger] patterns[i] == p && is_file[i],
        globs_of(patterns, is_file).contains(p) <==> p != "-"@ && exists|i: int|
            0 <= i < patterns.len() && #[trigger] patterns[i] == p && !is_file[i],
    decreases patterns.len(),
{
    if patterns.len() > 0 {
        let front = patterns.drop_last();
        let last = patterns.last();
        let few = is_file.drop_last();
        law_how_patterns_are_read(front, few, p);
        lemma_flags(front, is_file, few);
        assert(patterns =~= front.push(last));
        order::lemma_contains_push(front, last, "-"@);
        order::lemma_contains_push(globs_of(front, is_file), last, p);
        let before = direct_of(front, is_file);
        order::lemma_contains_push(before, Direct::Stdin, Direct::Stdin);
        order::lemma_contains_push(before, Direct::Stdin, Direct::Named(p));
        order::lemma_contains_push(before, Direct::Named(last), Direct::Stdin);
        order::lemma_contains_push(before, Direct::Named(last), Direct::Named(p));
        assert(patterns[patterns.len() - 1] == last);
        lemma_flagged(patterns, is_file, p, true);
        lemma_flagged(patterns, is_file, p, false);
    }
}

proof fn lemma_flags(patterns: Seq<Seq<char>>, a: Seq<bool>, b: Seq<bool>)
    requires
        forall|i: int| 0 <= i < patterns.len() ==> #[trigger] a[i] == b[i],
    ensures
        direct_of(patterns, a) == direct_of(patterns, b),
        globs_of(patterns, a) == globs_of(patterns, b),
    decreases patterns.len(),
{
    if patterns.len() > 0 {
        assert(a[patterns.len() - 1] == b[patterns.len() - 1]);
        lemma_flags(patterns.drop_last(), a, b);
    }
}

proof fn lemma_flagged(patterns: Seq<Seq<char>>, is_file: Seq<bool>, p: Seq<char>, flag: bool)
    requires
        patterns.len() > 0,
        is_file.len() == patterns.len(),
    ensures
        (exists|i: int|
            0 <= i < patterns.len() && #[trigger] patterns[i] == p && is_file[i] == flag) <==> (exists|
            i: int,
        |
            0 <= i < patterns.len() - 1 && #[trigger] patterns.drop_last()[i] == p
                && is_file.drop_last()[i] == flag) || (patterns.last() == p && is_file.last()
            == flag),
{
    let front = patterns.drop_last();
    if exists|i: int| 0 <= i < patterns.len() && #[trigger] patterns[i] == p && is_file[i] == flag {
        let i = choose|i: int|
            0 <= i < patterns.len() && #[trigger] patterns[i] == p && is_file[i] == flag;
        if i < front.len() {
            assert(front[i] == p);
        }
    }
    if exists|i: int|
        0 <= i < patterns.len() - 1 && #[trigger] front[i] == p && is_file.drop_last()[i] == flag {
        let i = choose|i: int|
            0 <= i < patterns.len() - 1 && #[trigger] front[i] == p && is_file.drop_last()[i]
                == flag;
        assert(patterns[i] == p);
    }
    if patterns.last() == p && is_file.last() == flag {
        assert(patterns[patterns.len() - 1] == p);
    }
}

/// Every pattern is read in one way.
pub proof fn law_every_pattern_once(patterns: Seq<Seq<char>>, is_file: Seq<bool>)
    requires
        is_file.len() == patterns.len(),
    ensures
        direct_of(patterns, is_file).len() + globs_of(patterns, is_file).len() == patterns.len(),
{
    lemma_every_pattern(patterns, is_file);
}

proof fn lemma_every_pattern(patterns: Seq<Seq<char>>, is_file: Seq<bool>)
    ensures
        direct_of(patterns, is_file).len() + globs_of(patterns, is_file).len() == patterns.len(),
    decreases patterns.len(),
{
    if patterns.len() > 0 {
        lemma_every_pattern(patterns.drop_last(), is_file);
    }
}

} // verus!
