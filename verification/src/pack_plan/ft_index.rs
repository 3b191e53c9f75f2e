//! The index of file type plugins: which files of which packages belong to a file type.

use crate::files::{FileSource, Source};
use crate::lazy_registration;
use crate::manifest;
use crate::manifest::{Entry, ManifestKind, SnapshotManifest};
use crate::order;
use crate::order::{Key, SortedMap, SortedSet};
use crate::pack_plan;
use crate::pack_plan::{Files, Package};
use crate::path;
use crate::path::{Component, Part, Path};
use crate::text;
use vstd::prelude::*;

verus! {

/// The links below `ftplugin` at or below `output` are known to lead to files.
pub open spec fn links_known(es: Seq<Entry>, output: Seq<Part>) -> bool {
    forall|i: int|
        0 <= i < es.len() && (#[trigger] es[i]).kind == ManifestKind::Symlink
            && ftplugin_dir().is_prefix_of(es[i].path) && output.is_prefix_of(es[i].path)
            ==> es[i].followed_kind == Some(ManifestKind::File)
}

/// What lies below `ftplugin` at or below an entry can be told from its inventory.  A link that
/// may lead to a directory cannot: the inventory does not follow it.
pub open spec fn entry_known(output: Seq<Part>, source: Source) -> bool {
    match source {
        Source::Directory { es, .. } => match manifest::kind_at(es, output) {
            Some(kind) => (kind != ManifestKind::Symlink || !output.contains(
                Part::Normal("ftplugin"@),
            )) && links_known(es, output),
            None => false,
        },
        Source::File { .. } => false,
    }
}

/// All entries can be told from inventories.
pub open spec fn package_known(entries: Seq<(Seq<Part>, Source)>) -> bool {
    forall|i: int|
        0 <= i < entries.len() ==> entry_known((#[trigger] entries[i]).0, entries[i].1)
}

/// The entry brings the file type plugin.
pub open spec fn brings(output: Seq<Part>, source: Source, p: Seq<Part>) -> bool {
    match source {
        Source::Directory { es, .. } => output.is_prefix_of(p) && manifest::leaves_below(
            es,
            "ftplugin"@,
        ).contains(p),
        Source::File { .. } => false,
    }
}

/// The package has the file type plugin.
pub open spec fn has_ftplugin(entries: Seq<(Seq<Part>, Source)>, p: Seq<Part>) -> bool {
    exists|i: int| 0 <= i < entries.len() && brings((#[trigger] entries[i]).0, entries[i].1, p)
}

/// `list` holds the package's file type plugins in path order.
pub open spec fn is_ftplugins(list: Seq<Seq<Part>>, entries: Seq<(Seq<Part>, Source)>) -> bool {
    order::ascending::<Path>(list) && forall|p: Seq<Part>| #[trigger]
        list.contains(p) <==> has_ftplugin(entries, p)
}

/// The package's file type plugins in path order.
pub open spec fn ftplugins(entries: Seq<(Seq<Part>, Source)>) -> Seq<Seq<Part>> {
    choose|list: Seq<Seq<Part>>| is_ftplugins(list, entries)
}

/// The path below `ftplugin`.
pub open spec fn ftplugin_dir() -> Seq<Part> {
    seq![Part::Normal("ftplugin"@)]
}

/// The name ends like a script.
pub open spec fn is_script_name(name: Seq<char>) -> bool {
    ".vim"@.is_suffix_of(name) || ".lua"@.is_suffix_of(name)
}

/// The path ends in the name of a script.
pub open spec fn is_script(p: Seq<Part>) -> bool {
    p.len() > 0 && match p.last() {
        Part::Normal(name) => is_script_name(name),
        _ => false,
    }
}

/// A script directly in `ftplugin` whose name begins with the file type and an underscore.
pub open spec fn is_suffixed(p: Seq<Part>, ft: Seq<char>) -> bool {
    ftplugin_dir().is_prefix_of(p) && p.len() == 2 && (match p.last() {
        Part::Normal(name) => (ft + "_"@).is_prefix_of(name),
        _ => false,
    }) && is_script(p)
}

/// A script directly in the directory of the file type.
pub open spec fn is_below(p: Seq<Part>, ft: Seq<char>) -> bool {
    ftplugin_dir().is_prefix_of(p) && p.len() > 1 && p.drop_last().skip(1) == path::parse_text(ft)
        && is_script(p)
}

/// The script of exactly the file type, in one language.
pub open spec fn exact_path(ft: Seq<char>, ext: Seq<char>) -> Seq<Part> {
    path::joined_path(ftplugin_dir(), path::parse_text(ft + "."@ + ext))
}

/// The list of `p` alone if it is among the plugins.
pub open spec fn if_among(list: Seq<Seq<Part>>, p: Seq<Part>) -> Seq<Seq<Part>> {
    if list.contains(p) {
        seq![p]
    } else {
        Seq::empty()
    }
}

/// The plugins of a file type: those of exactly its name, those whose name it begins, and those
/// below its directory.
pub open spec fn of_type(list: Seq<Seq<Part>>, ft: Seq<char>) -> Seq<Seq<Part>> {
    if_among(list, exact_path(ft, "vim"@)) + if_among(list, exact_path(ft, "lua"@)) + list.filter(
        |p: Seq<Part>| is_suffixed(p, ft),
    ) + list.filter(|p: Seq<Part>| is_below(p, ft))
}

/// A path of a package, from the root of the generation.
pub open spec fn installed_text(id: Seq<char>, p: Seq<Part>) -> Seq<char> {
    "opt/"@ + id + "/"@ + path::path_text(p)
}

/// The package with the identity.
pub open spec fn package_at(files: Seq<(Seq<char>, Package)>, id: Seq<char>) -> Option<Package>
    decreases files.len(),
{
    if files.len() == 0 {
        None
    } else if files[0].0 == id {
        Some(files[0].1)
    } else {
        package_at(files.skip(1), id)
    }
}

/// Paths of a package, from the root of the generation.
pub open spec fn installed_texts(id: Seq<char>, list: Seq<Seq<Part>>) -> Seq<Seq<char>> {
    list.map_values(|p: Seq<Part>| installed_text(id, p))
}

/// What is indexed for a package and a file type: no path twice.
pub open spec fn indexed_paths(
    files: Seq<(Seq<char>, Package)>,
    ft: Seq<char>,
    id: Seq<char>,
) -> Seq<Seq<char>> {
    lazy_registration::first_occurrences(
        installed_texts(id, of_type(ftplugins(package_at(files, id)->0.entries), ft)),
    )
}

/// The package is there, and its plugins can be told from inventories.
pub open spec fn indexable(files: Seq<(Seq<char>, Package)>, id: Seq<char>) -> bool {
    match package_at(files, id) {
        Some(package) => package_known(package.entries),
        None => false,
    }
}

/// The file type is to be indexed for the package.
pub open spec fn is_pair(pairs: Map<Seq<char>, Seq<Seq<char>>>, ft: Seq<char>, id: Seq<char>) -> bool {
    pairs.contains_key(ft) && pairs[ft].contains(id)
}

/// The index as nested maps.
pub open spec fn index_map(index: SortedMap<String, SortedMap<String, Vec<String>>>) -> Map<
    Seq<char>,
    Map<Seq<char>, Seq<Seq<char>>>,
> {
    Map::new(
        |ft: Seq<char>| index.has(ft),
        |ft: Seq<char>| lazy_registration::trigger_map(index.at(ft)),
    )
}

/// All maps of the index are in order.
pub open spec fn index_wf(index: SortedMap<String, SortedMap<String, Vec<String>>>) -> bool {
    index.wf() && forall|ft: Seq<char>| #[trigger] index.has(ft) ==> index.at(ft).wf()
}

/// A pair has plugins to index.
pub open spec fn is_indexed(
    files: Seq<(Seq<char>, Package)>,
    pairs: Map<Seq<char>, Seq<Seq<char>>>,
    ft: Seq<char>,
    id: Seq<char>,
) -> bool {
    is_pair(pairs, ft, id) && indexed_paths(files, ft, id).len() > 0
}

/// The index: for each file type and package with plugins for it, their paths.
pub open spec fn ft_index(
    files: Seq<(Seq<char>, Package)>,
    pairs: Map<Seq<char>, Seq<Seq<char>>>,
) -> Map<Seq<char>, Map<Seq<char>, Seq<Seq<char>>>> {
    Map::new(
        |ft: Seq<char>| exists|id: Seq<char>| is_indexed(files, pairs, ft, id),
        |ft: Seq<char>|
            Map::new(
                |id: Seq<char>| is_indexed(files, pairs, ft, id),
                |id: Seq<char>| indexed_paths(files, ft, id),
            ),
    )
}

pub(crate) proof fn lemma_ftplugins_unique(list: Seq<Seq<Part>>, entries: Seq<(Seq<Part>, Source)>)
    requires
        is_ftplugins(list, entries),
    ensures
        ftplugins(entries) == list,
{
    let chosen = ftplugins(entries);
    assert(is_ftplugins(chosen, entries));
    assert forall|p: Seq<Part>| #[trigger] list.contains(p) <==> chosen.contains(p) by {
        assert(list.contains(p) <==> has_ftplugin(entries, p));
    }
    order::lemma_ascending_unique::<Path>(list, chosen);
}

/// Whether a component of the path is `ftplugin`.
fn mentions_ftplugin(p: &Path) -> (found: bool)
    ensures
        found == p@.contains(Part::Normal("ftplugin"@)),
{
    let mut i: usize = 0;
    while i < p.parts.len()
        invariant
            i <= p.parts@.len(),
            forall|k: int| 0 <= k < i ==> #[trigger] p@[k] != Part::Normal("ftplugin"@),
        decreases p.parts@.len() - i,
    {
        assert(p@[i as int] == p.parts@[i as int]@);
        if let Component::Normal(name) = &p.parts[i] {
            if text::same(name.as_str(), "ftplugin") {
                assert(p@.contains(p@[i as int]));
                return true;
            }
        }
        i = i + 1;
    }
    false
}

/// Whether the links that an entry brings are known to lead to files.
fn links_are_files(inventory: &SnapshotManifest, output: &Path) -> (known: bool)
    ensures
        known == links_known(inventory.es(), output@),
{
    let ghost es = inventory.es();
    let dir = ftplugin_path();
    let mut i: usize = 0;
    while i < inventory.entries.len()
        invariant
            i <= inventory.entries@.len(),
            es == inventory.es(),
            es.len() == inventory.entries@.len(),
            dir@ == ftplugin_dir(),
            forall|k: int|
                0 <= k < i && (#[trigger] es[k]).kind == ManifestKind::Symlink
                    && ftplugin_dir().is_prefix_of(es[k].path) && output@.is_prefix_of(es[k].path)
                    ==> es[k].followed_kind == Some(ManifestKind::File),
        decreases inventory.entries@.len() - i,
    {
        let entry = &inventory.entries[i];
        assert(es[i as int] == entry@);
        let is_link = match entry.kind {
            ManifestKind::Symlink => true,
            _ => false,
        };
        let is_file = match entry.followed_kind {
            Some(ManifestKind::File) => true,
            _ => false,
        };
        if is_link && !is_file && entry.path.starts_with(&dir) && entry.path.starts_with(output) {
            return false;
        }
        i = i + 1;
    }
    true
}

/// Whether what an entry brings can be told.
fn entry_is_known(output: &Path, source: &FileSource) -> (known: bool)
    requires
        source.wf(),
    ensures
        known == entry_known(output@, source@),
{
    match source {
        FileSource::File { .. } => false,
        FileSource::Directory { inventory, .. } => match inventory.kind_of(output) {
            None => false,
            Some(ManifestKind::Symlink) => !mentions_ftplugin(output) && links_are_files(
                inventory,
                output,
            ),
            Some(_) => links_are_files(inventory, output),
        },
    }
}

/// Adds what an entry brings.
fn add_brought(paths: &mut SortedSet<Path>, output: &Path, source: &FileSource)
    requires
        old(paths).wf(),
        source.wf(),
    ensures
        final(paths).wf(),
        forall|p: Seq<Part>| #[trigger]
            final(paths).has(p) <==> old(paths).has(p) || brings(output@, source@, p),
{
    match source {
        FileSource::File { .. } => {},
        FileSource::Directory { inventory, .. } => {
            let ghost before = *paths;
            let list = inventory.ftplugin_files();
            let ghost models = manifest::path_models(list@);
            let ghost leaves = manifest::leaves_below(inventory.es(), "ftplugin"@);
            let mut i: usize = 0;
            while i < list.len()
                invariant
                    i <= list@.len(),
                    models == manifest::path_models(list@),
                    paths.wf(),
                    forall|p: Seq<Part>| #[trigger]
                        paths.has(p) <==> before.has(p) || (output@.is_prefix_of(p)
                            && models.take(i as int).contains(p)),
                decreases list@.len() - i,
            {
                let ghost now = *paths;
                let ghost p0 = models[i as int];
                if list[i].starts_with(output) {
                    paths.insert(list[i].duplicated());
                }
                proof {
                    assert(models.take(i as int + 1) =~= models.take(i as int).push(p0));
                    assert forall|p: Seq<Part>| #[trigger]
                        paths.has(p) <==> before.has(p) || (output@.is_prefix_of(p)
                            && models.take(i as int + 1).contains(p)) by {
                        order::lemma_contains_push(models.take(i as int), p0, p);
                        assert(now.has(p) <==> before.has(p) || (output@.is_prefix_of(p)
                            && models.take(i as int).contains(p)));
                    }
                }
                i = i + 1;
            }
            proof {
                assert(models.take(i as int) =~= models);
                assert forall|p: Seq<Part>| #[trigger]
                    paths.has(p) <==> before.has(p) || brings(output@, source@, p) by {
                    models.to_multiset_ensures();
                    leaves.to_multiset_ensures();
                    assert(models.contains(p) <==> models.to_multiset().count(p) > 0);
                    assert(leaves.contains(p) <==> leaves.to_multiset().count(p) > 0);
                }
            }
        },
    }
}

/// The package's file type plugins; nothing if they cannot be told.
fn package_ftplugins(package: &Files) -> (found: Option<SortedSet<Path>>)
    requires
        package.wf(),
    ensures
        match found {
            Some(paths) => package_known(package@.entries) && paths.wf() && paths.members()
                == ftplugins(package@.entries),
            None => !package_known(package@.entries),
        },
{
    let ghost entries = package@.entries;
    let mut paths: SortedSet<Path> = SortedSet::new();
    let mut i: usize = 0;
    while i < package.entries.len()
        invariant
            i <= package.entries@.len(),
            package.wf(),
            entries == package@.entries,
            paths.wf(),
            forall|k: int|
                0 <= k < i ==> entry_known((#[trigger] entries[k]).0, entries[k].1),
            forall|p: Seq<Part>| #[trigger]
                paths.has(p) <==> has_ftplugin(entries.take(i as int), p),
        decreases package.entries@.len() - i,
    {
        let ghost now = paths;
        let output = &package.entries[i].0;
        let source = &package.entries[i].1;
        proof {
            assert(package.entries@[i as int].1.wf());
            assert(entries[i as int] == (output@, (**source)@));
        }
        if !entry_is_known(output, source) {
            assert(!entry_known(entries[i as int].0, entries[i as int].1));
            return None;
        }
        add_brought(&mut paths, output, source);
        proof {
            let front = entries.take(i as int);
            let more = entries.take(i as int + 1);
            assert forall|p: Seq<Part>| #[trigger] paths.has(p) <==> has_ftplugin(more, p) by {
                assert(now.has(p) <==> has_ftplugin(front, p));
                if has_ftplugin(front, p) {
                    let k = choose|k: int|
                        0 <= k < front.len() && brings((#[trigger] front[k]).0, front[k].1, p);
                    assert(more[k] == front[k]);
                }
                assert(more[i as int] == entries[i as int]);
                if has_ftplugin(more, p) {
                    let k = choose|k: int|
                        0 <= k < more.len() && brings((#[trigger] more[k]).0, more[k].1, p);
                    if k < i {
                        assert(front[k] == more[k]);
                    }
                }
            }
        }
        i = i + 1;
    }
    proof {
        assert(entries.take(i as int) =~= entries);
        assert(is_ftplugins(paths.members(), entries)) by {
            assert forall|p: Seq<Part>| #[trigger]
                paths.members().contains(p) <==> has_ftplugin(entries, p) by {
                assert(paths.has(p) <==> has_ftplugin(entries, p));
            }
        }
        lemma_ftplugins_unique(paths.members(), entries);
    }
    Some(paths)
}

fn ftplugin_path() -> (p: Path)
    ensures
        p@ == ftplugin_dir(),
{
    let p = Path::empty().child("ftplugin");
    assert(p@ =~= ftplugin_dir());
    p
}

/// Whether a path ends in the name of a script.
fn script(p: &Path) -> (is: bool)
    ensures
        is == is_script(p@),
{
    match p.file_name() {
        Some(name) => text::ends_with(name.as_str(), ".vim") || text::ends_with(
            name.as_str(),
            ".lua",
        ),
        None => false,
    }
}

fn suffixed(p: &Path, ft: &str) -> (is: bool)
    ensures
        is == is_suffixed(p@, ft@),
{
    if p.parts.len() != 2 || !p.starts_with(&ftplugin_path()) {
        return false;
    }
    match p.file_name() {
        Some(name) => {
            let wanted = ft.to_owned().concat("_");
            text::starts_with(name.as_str(), wanted.as_str()) && script(p)
        },
        None => false,
    }
}

fn below(p: &Path, ft: &Path) -> (is: bool)
    ensures
        is == (ftplugin_dir().is_prefix_of(p@) && p@.len() > 1 && p@.drop_last().skip(1) == ft@
            && is_script(p@)),
{
    match p.strip_prefix(&ftplugin_path()) {
        Some(rest) => {
            proof {
                if p@.len() > 1 {
                    assert(rest@.drop_last() =~= p@.drop_last().skip(1));
                }
                if ft@.is_prefix_of(rest@) && rest@.len() == ft@.len() + 1 {
                    assert(rest@.drop_last() =~= ft@);
                }
                if p@.len() > 1 && p@.drop_last().skip(1) == ft@ {
                    assert(ft@ =~= rest@.subrange(0, ft@.len() as int));
                }
            }
            rest.parts.len() >= 1 && rest.parts.len() - 1 == ft.parts.len() && rest.starts_with(ft)
                && script(p)
        },
        None => false,
    }
}

/// Adds the text of a path, unless it is there.
fn push_installed(list: &mut Vec<String>, id: &str, p: &Path, Ghost(done): Ghost<Seq<Seq<Part>>>)
    requires
        text::strings(old(list)@) == lazy_registration::first_occurrences(
            installed_texts(id@, done),
        ),
    ensures
        text::strings(final(list)@) == lazy_registration::first_occurrences(
            installed_texts(id@, done.push(p@)),
        ),
{
    let mut s = String::from_str("opt/");
    s.append(id);
    s.append("/");
    s.append(p.to_text().as_str());
    assert(s@ =~= installed_text(id@, p@));
    push_unique(list, s.as_str());
    proof {
        let next = installed_texts(id@, done.push(p@));
        assert(next.drop_last() =~= installed_texts(id@, done));
        assert(next.last() == s@);
    }
}

fn push_exact(list: &mut Vec<String>, id: &str, paths: &SortedSet<Path>, ft: &str, ext: &str, Ghost(
    done,
): Ghost<Seq<Seq<Part>>>)
    requires
        paths.wf(),
        text::strings(old(list)@) == lazy_registration::first_occurrences(
            installed_texts(id@, done),
        ),
    ensures
        text::strings(final(list)@) == lazy_registration::first_occurrences(
            installed_texts(id@, done + if_among(paths.members(), exact_path(ft@, ext@))),
        ),
{
    let mut name = ft.to_owned();
    name.append(".");
    name.append(ext);
    let p = ftplugin_path().join(&Path::parse(name.as_str()));
    assert(p@ == exact_path(ft@, ext@));
    if paths.contains(&p) {
        assert(paths.members().contains(p@));
        assert(done + seq![p@] =~= done.push(p@));
        push_installed(list, id, &p, Ghost(done));
    } else {
        assert(!paths.members().contains(p@));
        assert(done + Seq::<Seq<Part>>::empty() =~= done);
    }
}

/// What is indexed for a package and a file type.
fn type_paths(paths: &SortedSet<Path>, ft: &str, id: &str) -> (list: Vec<String>)
    requires
        paths.wf(),
    ensures
        text::strings(list@) == lazy_registration::first_occurrences(
            installed_texts(id@, of_type(paths.members(), ft@)),
        ),
{
    let ghost all = paths.members();
    let ghost is_a = |p: Seq<Part>| is_suffixed(p, ft@);
    let ghost is_b = |p: Seq<Part>| is_below(p, ft@);
    let mut list: Vec<String> = Vec::new();
    let ghost e0 = Seq::<Seq<Part>>::empty();
    assert(text::strings(list@) =~= lazy_registration::first_occurrences(installed_texts(id@, e0)));
    push_exact(&mut list, id, paths, ft, "vim", Ghost(e0));
    let ghost e1 = e0 + if_among(all, exact_path(ft@, "vim"@));
    push_exact(&mut list, id, paths, ft, "lua", Ghost(e1));
    let ghost e2 = e1 + if_among(all, exact_path(ft@, "lua"@));
    let n: usize = paths.len();
    let mut i: usize = 0;
    proof {
        reveal(Seq::filter);
        assert(all.take(0).filter(is_a) =~= e0);
        assert(e2 + all.take(0).filter(is_a) =~= e2);
    }
    while i < n
        invariant
            i <= n,
            all == paths.members(),
            n == all.len(),
            is_a == (|p: Seq<Part>| is_suffixed(p, ft@)),
            text::strings(list@) == lazy_registration::first_occurrences(
                installed_texts(id@, e2 + all.take(i as int).filter(is_a)),
            ),
        decreases n - i,
    {
        let p = paths.at(i);
        let ghost front = all.take(i as int).filter(is_a);
        proof {
            reveal(Seq::filter);
            assert(all.take(i as int + 1).drop_last() =~= all.take(i as int));
            assert(all.take(i as int + 1).last() == p@);
        }
        if suffixed(p, ft) {
            push_installed(&mut list, id, p, Ghost(e2 + front));
            assert(e2 + front.push(p@) =~= (e2 + front).push(p@));
        }
        i = i + 1;
    }
    assert(all.take(i as int) =~= all);
    let ghost e3 = e2 + all.filter(is_a);
    let dir = Path::parse(ft);
    let mut i: usize = 0;
    proof {
        reveal(Seq::filter);
        assert(all.take(0).filter(is_b) =~= e0);
        assert(e3 + all.take(0).filter(is_b) =~= e3);
    }
    while i < n
        invariant
            i <= n,
            all == paths.members(),
            n == all.len(),
            dir@ == path::parse_text(ft@),
            is_b == (|p: Seq<Part>| is_below(p, ft@)),
            text::strings(list@) == lazy_registration::first_occurrences(
                installed_texts(id@, e3 + all.take(i as int).filter(is_b)),
            ),
        decreases n - i,
    {
        let p = paths.at(i);
        let ghost front = all.take(i as int).filter(is_b);
        proof {
            reveal(Seq::filter);
            assert(all.take(i as int + 1).drop_last() =~= all.take(i as int));
            assert(all.take(i as int + 1).last() == p@);
        }
        if below(p, &dir) {
            push_installed(&mut list, id, p, Ghost(e3 + front));
            assert(e3 + front.push(p@) =~= (e3 + front).push(p@));
        }
        i = i + 1;
    }
    assert(all.take(i as int) =~= all);
    assert(e3 + all.filter(is_b) =~= of_type(all, ft@));
    list
}

/// The package with the identity.
fn find_package<'a>(files: &'a Vec<(String, Files)>, id: &str) -> (found: Option<&'a Files>)
    ensures
        match found {
            Some(package) => package_at(pack_plan::packages(files@), id@) == Some(package@)
                && exists|i: int| 0 <= i < files@.len() && (#[trigger] files@[i]).1 == *package,
            None => package_at(pack_plan::packages(files@), id@) is None,
        },
{
    let ghost all = pack_plan::packages(files@);
    let mut i: usize = 0;
    assert(all.skip(0) =~= all);
    while i < files.len()
        invariant
            i <= files@.len(),
            all == pack_plan::packages(files@),
            package_at(all, id@) == package_at(all.skip(i as int), id@),
        decreases files@.len() - i,
    {
        proof {
            assert(all.skip(i as int)[0] == (files@[i as int].0@, files@[i as int].1@));
            assert(all.skip(i as int).skip(1) =~= all.skip(i as int + 1));
        }
        if text::same(files[i].0.as_str(), id) {
            return Some(&files[i].1);
        }
        i = i + 1;
    }
    assert(all.skip(i as int).len() == 0);
    None
}

/// Puts the paths of a pair into the index.
fn add_paths(
    index: &mut SortedMap<String, SortedMap<String, Vec<String>>>,
    ft: &String,
    id: &String,
    list: Vec<String>,
)
    requires
        index_wf(*old(index)),
    ensures
        index_wf(*final(index)),
        index_map(*final(index)) == index_map(*old(index)).insert(
            ft@,
            (if index_map(*old(index)).contains_key(ft@) {
                index_map(*old(index))[ft@]
            } else {
                Map::empty()
            }).insert(id@, text::strings(list@)),
        ),
{
    let ghost before = *index;
    let ghost texts = text::strings(list@);
    let mut inner = match index.remove(ft) {
        Some(inner) => inner,
        None => SortedMap::new(),
    };
    let ghost between = *index;
    let ghost base = if index_map(before).contains_key(ft@) {
        index_map(before)[ft@]
    } else {
        Map::empty()
    };
    let ghost old_inner = inner;
    assert(lazy_registration::trigger_map(inner) =~= base);
    inner.insert(id.clone(), list);
    assert(lazy_registration::trigger_map(inner) =~= base.insert(id@, texts));
    let ghost done = lazy_registration::trigger_map(inner);
    index.insert(ft.clone(), inner);
    proof {
        assert forall|k: Seq<char>| #[trigger] index.has(k) implies index.at(k).wf() by {
            if k != ft@ {
                assert(between.has(k));
                assert(before.has(k));
            }
        }
        let after = index_map(*index);
        let wanted = index_map(before).insert(ft@, done);
        assert(after =~= wanted) by {
            assert forall|k: Seq<char>| #[trigger] after.contains_key(k) <==> wanted.contains_key(k) by {
                assert(between.has(k) <==> before.has(k) && k != ft@);
            }
            assert forall|k: Seq<char>| after.contains_key(k) implies after[k] == wanted[k] by {
                if k != ft@ {
                    assert(between.has(k) && before.has(k));
                }
            }
        }
    }
}

/// The index of a part of the pairs.
spec fn index_of(
    files: Seq<(Seq<char>, Package)>,
    seen: Set<(Seq<char>, Seq<char>)>,
) -> Map<Seq<char>, Map<Seq<char>, Seq<Seq<char>>>> {
    Map::new(
        |ft: Seq<char>| exists|id: Seq<char>| #[trigger]
            seen.contains((ft, id)) && indexed_paths(files, ft, id).len() > 0,
        |ft: Seq<char>|
            Map::new(
                |id: Seq<char>| seen.contains((ft, id)) && indexed_paths(files, ft, id).len() > 0,
                |id: Seq<char>| indexed_paths(files, ft, id),
            ),
    )
}

/// Indexes one pair; tells whether that could be done.
fn index_pair(
    index: &mut SortedMap<String, SortedMap<String, Vec<String>>>,
    files: &Vec<(String, Files)>,
    ft: &String,
    id: &String,
    Ghost(seen): Ghost<Set<(Seq<char>, Seq<char>)>>,
) -> (done: bool)
    requires
        forall|i: int| 0 <= i < files@.len() ==> (#[trigger] files@[i]).1.wf(),
        index_wf(*old(index)),
        index_map(*old(index)) == index_of(pack_plan::packages(files@), seen),
    ensures
        done == indexable(pack_plan::packages(files@), id@),
        done ==> index_wf(*final(index)),
        done ==> index_map(*final(index)) == index_of(
            pack_plan::packages(files@),
            seen.insert((ft@, id@)),
        ),
{
    let ghost all = pack_plan::packages(files@);
    let package = match find_package(files, id.as_str()) {
        Some(package) => package,
        None => {
            return false;
        },
    };
    let paths = match package_ftplugins(package) {
        Some(paths) => paths,
        None => {
            return false;
        },
    };
    let list = type_paths(&paths, ft.as_str(), id.as_str());
    let ghost texts = text::strings(list@);
    let ghost before = index_map(*index);
    let ghost more = seen.insert((ft@, id@));
    assert(texts == indexed_paths(all, ft@, id@));
    if list.len() > 0 {
        proof {
            let after = index_of(all, more);
            let base = if before.contains_key(ft@) {
                before[ft@]
            } else {
                Map::empty()
            };
            let wanted = before.insert(ft@, base.insert(id@, texts));
            assert(more.contains((ft@, id@)));
            assert(after.contains_key(ft@));
            assert forall|k: Seq<char>| #[trigger] after.contains_key(k) <==> wanted.contains_key(k) by {
                if k != ft@ {
                    if before.contains_key(k) {
                        let x = choose|x: Seq<char>| #[trigger]
                            seen.contains((k, x)) && indexed_paths(all, k, x).len() > 0;
                        assert(more.contains((k, x)));
                    }
                    if after.contains_key(k) {
                        let x = choose|x: Seq<char>| #[trigger]
                            more.contains((k, x)) && indexed_paths(all, k, x).len() > 0;
                        assert(seen.contains((k, x)));
                    }
                }
            }
            assert forall|k: Seq<char>| after.contains_key(k) implies after[k] == wanted[k] by {
                assert(after[k] =~= wanted[k]) by {
                    assert forall|x: Seq<char>| #[trigger]
                        after[k].contains_key(x) <==> wanted[k].contains_key(x) by {
                        assert(more.contains((k, x)) <==> seen.contains((k, x)) || (k == ft@ && x
                            == id@));
                        if k == ft@ && seen.contains((k, x)) && indexed_paths(all, k, x).len() > 0 {
                            assert(before.contains_key(k));
                        }
                    }
                }
            }
            assert(after =~= wanted);
        }
        add_paths(index, ft, id, list);
    } else {
        proof {
            let after = index_of(all, more);
            assert forall|k: Seq<char>, x: Seq<char>|
                (#[trigger] more.contains((k, x)) && indexed_paths(all, k, x).len() > 0) <==> (
                seen.contains((k, x)) && indexed_paths(all, k, x).len() > 0) by {}
            assert forall|k: Seq<char>| #[trigger] after.contains_key(k) <==> before.contains_key(k) by {
                if before.contains_key(k) {
                    let x = choose|x: Seq<char>| #[trigger]
                        seen.contains((k, x)) && indexed_paths(all, k, x).len() > 0;
                    assert(more.contains((k, x)));
                }
                if after.contains_key(k) {
                    let x = choose|x: Seq<char>| #[trigger]
                        more.contains((k, x)) && indexed_paths(all, k, x).len() > 0;
                    assert(seen.contains((k, x)));
                }
            }
            assert forall|k: Seq<char>| after.contains_key(k) implies after[k] == before[k] by {
                assert(after[k] =~= before[k]) by {
                    assert forall|x: Seq<char>| #[trigger]
                        after[k].contains_key(x) <==> before[k].contains_key(x) by {
                        assert(more.contains((k, x)) && indexed_paths(all, k, x).len() > 0
                            <==> seen.contains((k, x)) && indexed_paths(all, k, x).len() > 0);
                    }
                }
            }
            assert(after =~= before);
        }
    }
    true
}

/// The index of the file type plugins of packages, from their inventories.  Nothing if that of
/// some package cannot be told from its inventory.
pub fn build_ft_index_from_inventories(
    files: &Vec<(String, Files)>,
    ft_pairs: &SortedMap<String, Vec<String>>,
) -> (found: Option<SortedMap<String, SortedMap<String, Vec<String>>>>)
    requires
        ft_pairs.wf(),
        forall|i: int| 0 <= i < files@.len() ==> (#[trigger] files@[i]).1.wf(),
    ensures
        found is None <==> exists|ft: Seq<char>, id: Seq<char>| #[trigger]
            is_pair(lazy_registration::trigger_map(*ft_pairs), ft, id) && !indexable(
                pack_plan::packages(files@),
                id,
            ),
        found matches Some(index) ==> index_wf(index) && index_map(index) == ft_index(
            pack_plan::packages(files@),
            lazy_registration::trigger_map(*ft_pairs),
        ),
{
    let ghost all = pack_plan::packages(files@);
    let ghost pairs = lazy_registration::trigger_map(*ft_pairs);
    let mut index: SortedMap<String, SortedMap<String, Vec<String>>> = SortedMap::new();
    let ghost mut seen: Set<(Seq<char>, Seq<char>)> = Set::empty();
    assert(index_map(index) =~= index_of(all, seen));
    let n: usize = ft_pairs.len();
    let mut i: usize = 0;
    while i < n
        invariant
            i <= n,
            ft_pairs.wf(),
            n == ft_pairs.keys().len(),
            all == pack_plan::packages(files@),
            pairs == lazy_registration::trigger_map(*ft_pairs),
            forall|i: int| 0 <= i < files@.len() ==> (#[trigger] files@[i]).1.wf(),
            index_wf(index),
            index_map(index) == index_of(all, seen),
            forall|ft: Seq<char>, id: Seq<char>| #[trigger]
                seen.contains((ft, id)) ==> is_pair(pairs, ft, id) && indexable(all, id),
            forall|k: int, id: Seq<char>|
                0 <= k < i && is_pair(pairs, #[trigger] ft_pairs.keys()[k], id)
                    ==> #[trigger] seen.contains((ft_pairs.keys()[k], id)),
        decreases n - i,
    {
        let ft = ft_pairs.key_at(i);
        let ids = ft_pairs.value_at(i);
        proof {
            ft_pairs.lemma_at(i as int);
        }
        let mut j: usize = 0;
        while j < ids.len()
            invariant
                j <= ids@.len(),
                i < n,
                n == ft_pairs.keys().len(),
                ft@ == ft_pairs.keys()[i as int],
                ft_pairs.has(ft@),
                ft_pairs.at(ft@) == *ids,
                all == pack_plan::packages(files@),
                pairs == lazy_registration::trigger_map(*ft_pairs),
                forall|i: int| 0 <= i < files@.len() ==> (#[trigger] files@[i]).1.wf(),
                index_wf(index),
                index_map(index) == index_of(all, seen),
                forall|ft: Seq<char>, id: Seq<char>| #[trigger]
                    seen.contains((ft, id)) ==> is_pair(pairs, ft, id) && indexable(all, id),
                forall|k: int, id: Seq<char>|
                    0 <= k < i && is_pair(pairs, #[trigger] ft_pairs.keys()[k], id)
                        ==> #[trigger] seen.contains((ft_pairs.keys()[k], id)),
                forall|k: int| 0 <= k < j ==> seen.contains((ft@, #[trigger] ids@[k]@)),
            decreases ids@.len() - j,
        {
            let id = &ids[j];
            proof {
                assert(text::strings(ids@)[j as int] == id@);
                assert(pairs[ft@].contains(id@));
                assert(is_pair(pairs, ft@, id@));
            }
            if !index_pair(&mut index, files, ft, id, Ghost(seen)) {
                return None;
            }
            proof {
                seen = seen.insert((ft@, id@));
            }
            j = j + 1;
        }
        proof {
            assert forall|k: int, id: Seq<char>|
                0 <= k < i + 1 && is_pair(pairs, #[trigger] ft_pairs.keys()[k], id) implies #[trigger] seen.contains((ft_pairs.keys()[k], id)) by {
                if k == i {
                    let x = pairs[ft@].index_of(id);
                    assert(pairs[ft@][x] == id);
                    assert(ids@[x]@ == id);
                }
            }
        }
        i = i + 1;
    }
    proof {
        assert forall|ft: Seq<char>, id: Seq<char>| is_pair(pairs, ft, id) == #[trigger] seen.contains((ft, id)) by {
            if is_pair(pairs, ft, id) {
                let k = ft_pairs.keys().index_of(ft);
                assert(ft_pairs.keys()[k] == ft);
            }
        }
        assert forall|ft: Seq<char>, id: Seq<char>| #[trigger] is_pair(pairs, ft, id) implies indexable(all, id) by {
            assert(seen.contains((ft, id)));
        }
        let have = index_of(all, seen);
        let want = ft_index(all, pairs);
        assert forall|ft: Seq<char>| #[trigger] have.contains_key(ft) <==> want.contains_key(ft) by {
            if have.contains_key(ft) {
                let id = choose|id: Seq<char>| #[trigger]
                    seen.contains((ft, id)) && indexed_paths(all, ft, id).len() > 0;
                assert(is_indexed(all, pairs, ft, id));
            }
            if want.contains_key(ft) {
                let id = choose|id: Seq<char>| is_indexed(all, pairs, ft, id);
                assert(seen.contains((ft, id)));
            }
        }
        assert forall|ft: Seq<char>| have.contains_key(ft) implies have[ft] == want[ft] by {
            assert(have[ft] =~= want[ft]) by {
                assert forall|id: Seq<char>| #[trigger] have[ft].contains_key(id) <==> want[ft].contains_key(id) by {
                    assert(seen.contains((ft, id)) == is_pair(pairs, ft, id));
                }
            }
        }
        assert(have =~= want);
    }
    Some(index)
}

/// Adds a path unless it is there.
pub fn push_unique(paths: &mut Vec<String>, p: &str)
    ensures
        text::strings(final(paths)@) == (if text::strings(old(paths)@).contains(p@) {
            text::strings(old(paths)@)
        } else {
            text::strings(old(paths)@).push(p@)
        }),
{
    let ghost before = text::strings(paths@);
    let mut i: usize = 0;
    while i < paths.len()
        invariant
            i <= paths@.len(),
            before == text::strings(paths@),
            forall|k: int| 0 <= k < i ==> #[trigger] before[k] != p@,
        decreases paths@.len() - i,
    {
        if text::same(paths[i].as_str(), p) {
            assert(before[i as int] == p@);
            return;
        }
        assert(before[i as int] == paths@[i as int]@);
        i = i + 1;
    }
    assert(!before.contains(p@));
    paths.push(p.to_owned());
    assert(text::strings(paths@) =~= before.push(p@));
}

/// `list` holds the members of `names` that pass, in order.
pub open spec fn picked(
    list: Seq<Seq<char>>,
    names: Seq<Seq<char>>,
    pass: spec_fn(Seq<char>) -> bool,
) -> bool {
    order::sorted_from::<String>(list, names.filter(pass))
}

/// A path below the file type plugins of a package.
pub open spec fn scanned_text(id: Seq<char>, below: Seq<char>) -> Seq<char> {
    "opt/"@ + id + "/ftplugin/"@ + below
}

/// The names in the list, as paths.
pub open spec fn scanned_texts(id: Seq<char>, dir: Seq<char>, list: Seq<Seq<char>>) -> Seq<Seq<char>> {
    list.map_values(|name: Seq<char>| scanned_text(id, dir + name))
}

/// The exact scripts that are among the names.
pub open spec fn exact_names(names: Seq<Seq<char>>, ft: Seq<char>) -> Seq<Seq<char>> {
    (if names.contains(ft + ".vim"@) {
        seq![ft + ".vim"@]
    } else {
        Seq::empty()
    }) + (if names.contains(ft + ".lua"@) {
        seq![ft + ".lua"@]
    } else {
        Seq::empty()
    })
}

/// `paths` are the file type plugins that a scan found, by the names of the files in `ftplugin`
/// and in its directory of the file type: those of exactly its name, those whose name it begins,
/// and those in its directory, each once.
pub open spec fn is_scanned(
    paths: Seq<Seq<char>>,
    names: Seq<Seq<char>>,
    inner: Seq<Seq<char>>,
    ft: Seq<char>,
    id: Seq<char>,
) -> bool {
    exists|suffixed: Seq<Seq<char>>, below: Seq<Seq<char>>|
        #![trigger scanned_texts(id, Seq::empty(), suffixed), scanned_texts(id, ft + "/"@, below)]
        picked(
            suffixed,
            names,
            |name: Seq<char>| (ft + "_"@).is_prefix_of(name) && is_script_name(name),
        ) && picked(below, inner, |name: Seq<char>| is_script_name(name)) && paths
            == lazy_registration::first_occurrences(
            scanned_texts(id, Seq::empty(), exact_names(names, ft)) + scanned_texts(
                id,
                Seq::empty(),
                suffixed,
            ) + scanned_texts(id, ft + "/"@, below),
        )
}

fn script_name(name: &str) -> (is: bool)
    ensures
        is == is_script_name(name@),
{
    text::ends_with(name, ".vim") || text::ends_with(name, ".lua")
}

fn pick_suffixed(names: &Vec<String>, ft: &str) -> (list: Vec<String>)
    ensures
        picked(
            text::strings(list@),
            text::strings(names@),
            |name: Seq<char>| (ft@ + "_"@).is_prefix_of(name) && is_script_name(name),
        ),
{
    let ghost all = text::strings(names@);
    let ghost pass = |name: Seq<char>| (ft@ + "_"@).is_prefix_of(name) && is_script_name(name);
    let prefix = ft.to_owned().concat("_");
    let mut list: Vec<String> = Vec::new();
    let mut i: usize = 0;
    proof {
        reveal(Seq::filter);
        assert(all.take(0).filter(pass) =~= Seq::<Seq<char>>::empty());
        assert(text::strings(list@) =~= all.take(0).filter(pass));
    }
    while i < names.len()
        invariant
            i <= names@.len(),
            all == text::strings(names@),
            prefix@ == ft@ + "_"@,
            pass == (|name: Seq<char>| (ft@ + "_"@).is_prefix_of(name) && is_script_name(name)),
            text::strings(list@) == all.take(i as int).filter(pass),
        decreases names@.len() - i,
    {
        let ghost before = list@;
        proof {
            reveal(Seq::filter);
            assert(all.take(i as int + 1).drop_last() =~= all.take(i as int));
            assert(all.take(i as int + 1).last() == names@[i as int]@);
        }
        if text::starts_with(names[i].as_str(), prefix.as_str()) && script_name(names[i].as_str()) {
            list.push(names[i].clone());
            assert(text::strings(list@) =~= text::strings(before).push(names@[i as int]@));
        }
        i = i + 1;
    }
    assert(all.take(i as int) =~= all);
    let ghost raw = list@;
    let sorted = order::sort_keys(list);
    assert(order::models(raw) =~= text::strings(raw));
    assert(order::models(sorted@) =~= text::strings(sorted@));
    sorted
}

fn pick_scripts(names: &Vec<String>) -> (list: Vec<String>)
    ensures
        picked(
            text::strings(list@),
            text::strings(names@),
            |name: Seq<char>| is_script_name(name),
        ),
{
    let ghost all = text::strings(names@);
    let ghost pass = |name: Seq<char>| is_script_name(name);
    let mut list: Vec<String> = Vec::new();
    let mut i: usize = 0;
    proof {
        reveal(Seq::filter);
        assert(all.take(0).filter(pass) =~= Seq::<Seq<char>>::empty());
        assert(text::strings(list@) =~= all.take(0).filter(pass));
    }
    while i < names.len()
        invariant
            i <= names@.len(),
            all == text::strings(names@),
            pass == (|name: Seq<char>| is_script_name(name)),
            text::strings(list@) == all.take(i as int).filter(pass),
        decreases names@.len() - i,
    {
        let ghost before = list@;
        proof {
            reveal(Seq::filter);
            assert(all.take(i as int + 1).drop_last() =~= all.take(i as int));
            assert(all.take(i as int + 1).last() == names@[i as int]@);
        }
        if script_name(names[i].as_str()) {
            list.push(names[i].clone());
            assert(text::strings(list@) =~= text::strings(before).push(names@[i as int]@));
        }
        i = i + 1;
    }
    assert(all.take(i as int) =~= all);
    let ghost raw = list@;
    let sorted = order::sort_keys(list);
    assert(order::models(raw) =~= text::strings(raw));
    assert(order::models(sorted@) =~= text::strings(sorted@));
    sorted
}

fn push_scanned(
    paths: &mut Vec<String>,
    id: &str,
    dir: &str,
    list: &Vec<String>,
    Ghost(done): Ghost<Seq<Seq<char>>>,
)
    requires
        text::strings(old(paths)@) == lazy_registration::first_occurrences(done),
    ensures
        text::strings(final(paths)@) == lazy_registration::first_occurrences(
            done + scanned_texts(id@, dir@, text::strings(list@)),
        ),
{
    let ghost all = scanned_texts(id@, dir@, text::strings(list@));
    let mut i: usize = 0;
    assert(done + all.take(0) =~= done);
    while i < list.len()
        invariant
            i <= list@.len(),
            all == scanned_texts(id@, dir@, text::strings(list@)),
            text::strings(paths@) == lazy_registration::first_occurrences(
                done + all.take(i as int),
            ),
        decreases list@.len() - i,
    {
        let mut s = String::from_str("opt/");
        s.append(id);
        s.append("/ftplugin/");
        s.append(dir);
        s.append(list[i].as_str());
        proof {
            assert(s@ =~= all[i as int]);
            let next = done + all.take(i as int + 1);
            assert(next.drop_last() =~= done + all.take(i as int));
            assert(next.last() == s@);
        }
        push_unique(paths, s.as_str());
        i = i + 1;
    }
    assert(all.take(i as int) =~= all);
}

fn has_name(names: &Vec<String>, name: &str) -> (found: bool)
    ensures
        found == text::strings(names@).contains(name@),
{
    let ghost all = text::strings(names@);
    let mut i: usize = 0;
    while i < names.len()
        invariant
            i <= names@.len(),
            all == text::strings(names@),
            forall|k: int| 0 <= k < i ==> #[trigger] all[k] != name@,
        decreases names@.len() - i,
    {
        assert(all[i as int] == names@[i as int]@);
        if text::same(names[i].as_str(), name) {
            return true;
        }
        i = i + 1;
    }
    false
}

/// The file type plugins that a scan of a package found.
pub fn collect_ftplugin_files(names: &Vec<String>, inner: &Vec<String>, ft: &str, id: &str) -> (paths:
    Vec<String>)
    ensures
        is_scanned(
            text::strings(paths@),
            text::strings(names@),
            text::strings(inner@),
            ft@,
            id@,
        ),
{
    let ghost all = text::strings(names@);
    let mut exact: Vec<String> = Vec::new();
    let vim = ft.to_owned().concat(".vim");
    let lua = ft.to_owned().concat(".lua");
    if has_name(names, vim.as_str()) {
        exact.push(vim);
    }
    if has_name(names, lua.as_str()) {
        exact.push(lua);
    }
    assert(text::strings(exact@) =~= exact_names(all, ft@));
    let suffixed = pick_suffixed(names, ft);
    let below = pick_scripts(inner);
    let dir = ft.to_owned().concat("/");
    let mut paths: Vec<String> = Vec::new();
    let ghost e0 = Seq::<Seq<char>>::empty();
    proof {
        reveal_strlit("");
        assert(""@ =~= Seq::<char>::empty());
        assert(text::strings(paths@) =~= lazy_registration::first_occurrences(e0));
    }
    push_scanned(&mut paths, id, "", &exact, Ghost(e0));
    let ghost e1 = scanned_texts(id@, Seq::empty(), exact_names(all, ft@));
    assert(e0 + e1 =~= e1);
    push_scanned(&mut paths, id, "", &suffixed, Ghost(e1));
    let ghost e2 = e1 + scanned_texts(id@, Seq::empty(), text::strings(suffixed@));
    push_scanned(&mut paths, id, dir.as_str(), &below, Ghost(e2));
    assert(text::strings(paths@) == lazy_registration::first_occurrences(
        e2 + scanned_texts(id@, ft@ + "/"@, text::strings(below@)),
    ));
    paths
}

/// The index with the paths of one pair; nothing is noted of a pair without any.
pub open spec fn with_paths(
    index: Map<Seq<char>, Map<Seq<char>, Seq<Seq<char>>>>,
    ft: Seq<char>,
    id: Seq<char>,
    paths: Seq<Seq<char>>,
) -> Map<Seq<char>, Map<Seq<char>, Seq<Seq<char>>>> {
    if paths.len() == 0 {
        index
    } else {
        index.insert(
            ft,
            (if index.contains_key(ft) {
                index[ft]
            } else {
                Map::empty()
            }).insert(id, paths),
        )
    }
}

/// Notes what was found of a file type in a package: `names` are the files of its directory of
/// file type plugins, `inner` those of the directory of the file type in it.
pub fn index_scanned(
    index: &mut SortedMap<String, SortedMap<String, Vec<String>>>,
    names: &Vec<String>,
    inner: &Vec<String>,
    ft: &String,
    id: &String,
)
    requires
        index_wf(*old(index)),
    ensures
        index_wf(*final(index)),
        exists|paths: Seq<Seq<char>>| #[trigger]
            is_scanned(paths, text::strings(names@), text::strings(inner@), ft@, id@) && index_map(
                *final(index),
            ) == with_paths(index_map(*old(index)), ft@, id@, paths),
{
    let paths = collect_ftplugin_files(names, inner, ft.as_str(), id.as_str());
    let ghost found = text::strings(paths@);
    assert(is_scanned(found, text::strings(names@), text::strings(inner@), ft@, id@));
    if paths.len() > 0 {
        add_paths(index, ft, id, paths);
    }
}

} // verus!
