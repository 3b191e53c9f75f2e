//! Inventories of snapshots: what a walk through a snapshot takes down.

use crate::digest;
use crate::files::{FileItem, FileSource, MergeType};
use crate::identity::{FileIdentity, RepoFileIdentity, RepoSnapshotIdentity};
use crate::lazy_registration;
use crate::manifest;
use crate::manifest::{
    Entry, ManifestEntry, ManifestKind, SnapshotManifest, MANIFEST_FILE, MANIFEST_SCHEMA,
};
use crate::order;
use crate::order::{Key, Order};
use crate::pack_plan::ft_index;
use crate::path;
use crate::path::{Part, Path};
use crate::text;
use std::sync::Arc;
use vstd::prelude::*;

pub mod laws;

verus! {

/// How deep documentation is searched.
pub const DOC_DEPTH: usize = 128;

/// What a walk sees of an entry.
pub struct Seen {
    /// Path from the root of the snapshot.
    pub path: Path,
    pub is_symlink: bool,
    pub is_dir: bool,
    /// Where a symbolic link points, if that could be read.
    pub target: Option<Path>,
    /// Whether what a symbolic link points to is a directory, if that exists.
    pub target_is_dir: Option<bool>,
}

/// The entry that is taken down.
pub open spec fn entry_of(seen: Seen) -> Entry {
    if seen.is_symlink {
        Entry {
            path: seen.path@,
            kind: ManifestKind::Symlink,
            symlink_target: match seen.target {
                Some(target) => Some(target@),
                None => None,
            },
            followed_kind: match seen.target_is_dir {
                Some(is_dir) => Some(
                    if is_dir {
                        ManifestKind::Dir
                    } else {
                        ManifestKind::File
                    },
                ),
                None => None,
            },
        }
    } else {
        Entry {
            path: seen.path@,
            kind: if seen.is_dir {
                ManifestKind::Dir
            } else {
                ManifestKind::File
            },
            symlink_target: None,
            followed_kind: None,
        }
    }
}

impl Seen {
    /// The entry that is taken down.
    pub fn entry(self) -> (entry: ManifestEntry)
        ensures
            entry@ == entry_of(self),
    {
        if self.is_symlink {
            let followed_kind: Option<ManifestKind> = match self.target_is_dir {
                Some(is_dir) => Some(
                    if is_dir {
                        ManifestKind::Dir
                    } else {
                        ManifestKind::File
                    },
                ),
                None => None,
            };
            ManifestEntry {
                path: self.path,
                kind: ManifestKind::Symlink,
                symlink_target: self.target,
                followed_kind,
            }
        } else {
            let kind = if self.is_dir {
                ManifestKind::Dir
            } else {
                ManifestKind::File
            };
            ManifestEntry { path: self.path, kind, symlink_target: None, followed_kind: None }
        }
    }
}

/// The name is taken down.
pub open spec fn takes_down(name: Seq<char>, dotgit: bool, mark: Seq<char>) -> bool {
    name != MANIFEST_FILE@ && name != mark && (name == ".git"@ ==> dotgit)
}

/// Whether a name is taken down: the inventory itself and the mark of a build are not, and
/// `.git` only where it is wanted.
pub fn is_listed(name: &str, dotgit: bool, build_success_file: &str) -> (listed: bool)
    ensures
        listed == takes_down(name@, dotgit, build_success_file@),
{
    if text::same(name, MANIFEST_FILE) || text::same(name, build_success_file) {
        return false;
    }
    !text::same(name, ".git") || dotgit
}

/// Entries with their paths as keys.
pub open spec fn by_path(es: Seq<Entry>) -> Seq<(Seq<Part>, Entry)> {
    es.map_values(|e: Entry| (e.path, e))
}

/// `sorted` are the entries in the order of their paths.
pub open spec fn is_inventory(sorted: Seq<Entry>, es: Seq<Entry>) -> bool {
    order::stably_sorted::<Path, Entry>(by_path(sorted), by_path(es))
}

fn insert_entry(list: &mut Vec<ManifestEntry>, e: ManifestEntry, Ghost(input): Ghost<Seq<Entry>>)
    requires
        is_inventory(manifest::entry_models(old(list)@), input),
    ensures
        is_inventory(manifest::entry_models(final(list)@), input.push(e@)),
{
    let ghost raw = list@;
    let ghost sorted = by_path(manifest::entry_models(raw));
    let ghost given = by_path(input);
    let ghost x = (e@.path, e@);
    let mut at: usize = list.len();
    proof {
        order::lemma_key_order::<Path>();
    }
    while at > 0
        invariant
            list@ == raw,
            sorted == by_path(manifest::entry_models(raw)),
            at <= raw.len(),
            x.0 == e.path@,
            order::stably_sorted::<Path, Entry>(sorted, given),
            forall|i: int|
                at <= i < sorted.len() ==> Path::before(x.0, (#[trigger] sorted[i]).0),
        ensures
            at <= raw.len(),
            forall|i: int|
                at <= i < sorted.len() ==> Path::before(x.0, (#[trigger] sorted[i]).0),
            forall|i: int| 0 <= i < at ==> !Path::before(x.0, (#[trigger] sorted[i]).0),
        decreases at,
    {
        assert(sorted[at - 1].0 == list@[at - 1].path@);
        match e.path.compare(&list[at - 1].path) {
            Order::Less => {
                at = at - 1;
            },
            _ => {
                proof {
                    order::lemma_key_order::<Path>();
                    let last = at - 1;
                    assert(!Path::before(x.0, sorted[last].0));
                    assert forall|i: int| 0 <= i < at implies !Path::before(
                        x.0,
                        (#[trigger] sorted[i]).0,
                    ) by {
                        if i < last && Path::before(x.0, sorted[i].0) {
                            assert(!Path::before(sorted[last].0, sorted[i].0));
                            assert(sorted[i].0 == sorted[last].0 || Path::before(
                                sorted[i].0,
                                sorted[last].0,
                            ));
                        }
                    }
                }
                break;
            },
        }
    }
    proof {
        order::lemma_stable_insert::<Path, Entry>(sorted, given, at as int, x);
        assert(by_path(input.push(e@)) =~= given.push(x));
    }
    list.insert(at, e);
    assert(by_path(manifest::entry_models(list@)) =~= sorted.insert(at as int, x));
}

/// The entries in the order of their paths.
pub fn sort_entries(entries: Vec<ManifestEntry>) -> (sorted: Vec<ManifestEntry>)
    ensures
        is_inventory(
            manifest::entry_models(sorted@),
            manifest::entry_models(entries@),
        ),
{
    let ghost raw = entries@;
    let ghost all = manifest::entry_models(raw);
    let mut sorted: Vec<ManifestEntry> = Vec::new();
    proof {
        assert(all.take(0) =~= Seq::<Entry>::empty());
        assert(manifest::entry_models(sorted@) =~= Seq::<Entry>::empty());
    }
    for e in it: entries
        invariant
            it.seq() == raw,
            all == manifest::entry_models(raw),
            is_inventory(manifest::entry_models(sorted@), all.take(it.index() as int)),
    {
        let ghost n = it.index() as int;
        assert(all.take(n + 1) =~= all.take(n).push(e@));
        insert_entry(&mut sorted, e, Ghost(all.take(n)));
    }
    assert(all.take(raw.len() as int) =~= all);
    sorted
}

/// What the digest of the contents is taken of: the path and the contents of each file and link,
/// each with a zero after it.
pub open spec fn contents_code(es: Seq<Entry>, contents: Seq<Seq<u8>>) -> Seq<u8>
    decreases es.len(),
{
    if es.len() == 0 {
        Seq::empty()
    } else {
        let before = contents_code(es.drop_last(), contents);
        if es.last().kind == ManifestKind::Dir {
            before
        } else {
            before + vstd::utf8::encode_utf8(path::path_text(es.last().path)) + seq![0u8]
                + contents[es.len() - 1] + seq![0u8]
        }
    }
}

/// Contents of files.
pub open spec fn byte_views(list: Seq<Vec<u8>>) -> Seq<Seq<u8>> {
    list.map_values(|b: Vec<u8>| b@)
}

/// The digest of the contents; `contents` are those of the entries, in their order, and nothing
/// for directories.
pub fn content_digest(entries: &Vec<ManifestEntry>, contents: &Vec<Vec<u8>>) -> (found: u128)
    requires
        contents@.len() == entries@.len(),
    ensures
        found == digest::xxh3_digest(
            contents_code(manifest::entry_models(entries@), byte_views(contents@)),
        ),
{
    let ghost es = manifest::entry_models(entries@);
    let ghost all = byte_views(contents@);
    let mut code: Vec<u8> = Vec::new();
    let mut i: usize = 0;
    assert(es.take(0) =~= Seq::<Entry>::empty());
    while i < entries.len()
        invariant
            i <= entries@.len(),
            contents@.len() == entries@.len(),
            es == manifest::entry_models(entries@),
            all == byte_views(contents@),
            code@ == contents_code(es.take(i as int), all),
        decreases entries@.len() - i,
    {
        proof {
            assert(es.take(i as int + 1).drop_last() =~= es.take(i as int));
            assert(es.take(i as int + 1).last() == entries@[i as int]@);
            assert(all[i as int] == contents@[i as int]@);
        }
        if entries[i].kind != ManifestKind::Dir {
            let name = entries[i].path.to_text();
            digest::push_raw(&mut code, name.as_str().as_bytes());
            digest::push_byte(&mut code, 0);
            digest::push_raw(&mut code, contents[i].as_slice());
            digest::push_byte(&mut code, 0);
        }
        i = i + 1;
    }
    assert(es.take(i as int) =~= es);
    digest::xxh3_128(&code)
}

/// The inventory of a snapshot whose entries are in order.
pub fn build(entries: Vec<ManifestEntry>, digest: Option<u128>) -> (built: SnapshotManifest)
    ensures
        built.schema == MANIFEST_SCHEMA,
        built.entries == entries,
        built.content_digest == digest,
        built.indexed(),
{
    SnapshotManifest::new(MANIFEST_SCHEMA, entries, digest)
}

/// The paths differ.
pub open spec fn distinct_paths(es: Seq<Entry>) -> bool {
    forall|i: int, j: int| 0 <= i < j < es.len() ==> (#[trigger] es[i]).path != (#[trigger] es[j]).path
}

proof fn lemma_with_key_len(es: Seq<Entry>, p: Seq<Part>)
    requires
        distinct_paths(es),
    ensures
        order::with_key(by_path(es), p).len() <= 1,
        order::with_key(by_path(es), p).len() > 0 ==> exists|i: int|
            0 <= i < es.len() && (#[trigger] es[i]).path == p && order::with_key(by_path(es), p)[0]
                == (p, es[i]),
    decreases es.len(),
{
    reveal(Seq::filter);
    if es.len() > 0 {
        let front = es.drop_last();
        assert(by_path(es).drop_last() =~= by_path(front));
        assert(by_path(es).last() == (es.last().path, es.last()));
        lemma_with_key_len(front, p);
        if es.last().path == p {
            if order::with_key(by_path(front), p).len() > 0 {
                let i = choose|i: int|
                    0 <= i < front.len() && (#[trigger] front[i]).path == p && order::with_key(
                        by_path(front),
                        p,
                    )[0] == (p, front[i]);
                assert(es[i].path != es[es.len() - 1].path);
            }
            assert(es[es.len() - 1].path == p);
        } else if order::with_key(by_path(front), p).len() > 0 {
            let i = choose|i: int|
                0 <= i < front.len() && (#[trigger] front[i]).path == p && order::with_key(
                    by_path(front),
                    p,
                )[0] == (p, front[i]);
            assert(es[i] == front[i]);
        }
    }
}

proof fn lemma_two_with_key(es: Seq<Entry>, i: int, j: int)
    requires
        0 <= i < j < es.len(),
        es[i].path == es[j].path,
    ensures
        order::with_key(by_path(es), es[i].path).len() >= 2,
    decreases es.len(),
{
    reveal(Seq::filter);
    let front = es.drop_last();
    assert(by_path(es).drop_last() =~= by_path(front));
    assert(by_path(es).last() == (es.last().path, es.last()));
    if j < front.len() {
        lemma_two_with_key(front, i, j);
    } else {
        lemma_one_with_key(front, i);
    }
}

proof fn lemma_one_with_key(es: Seq<Entry>, i: int)
    requires
        0 <= i < es.len(),
    ensures
        order::with_key(by_path(es), es[i].path).len() >= 1,
    decreases es.len(),
{
    reveal(Seq::filter);
    let front = es.drop_last();
    assert(by_path(es).drop_last() =~= by_path(front));
    assert(by_path(es).last() == (es.last().path, es.last()));
    if i < front.len() {
        lemma_one_with_key(front, i);
    }
}

/// An inventory that was taken down can be read again: where the paths of the walk differ, are
/// not empty and are made of names only, the sorted entries are valid.
pub proof fn law_inventory_is_valid(sorted: Seq<Entry>, es: Seq<Entry>)
    requires
        is_inventory(sorted, es),
        distinct_paths(es),
        forall|i: int|
            0 <= i < es.len() ==> (#[trigger] es[i]).path.len() > 0 && path::plain(es[i].path),
    ensures
        manifest::valid_entries(sorted),
{
    order::lemma_key_order::<Path>();
    let pairs = by_path(sorted);
    assert forall|i: int, j: int| 0 <= i < j < sorted.len() implies Path::before(
        (#[trigger] sorted[i]).path,
        (#[trigger] sorted[j]).path,
    ) by {
        assert(pairs[i].0 == sorted[i].path);
        assert(pairs[j].0 == sorted[j].path);
        assert(!Path::before(pairs[j].0, pairs[i].0));
        let p = sorted[i].path;
        if sorted[j].path == p {
            lemma_two_with_key(sorted, i, j);
            lemma_with_key_len(es, p);
            assert(order::with_key(pairs, p) == order::with_key(by_path(es), p));
        }
        assert(Path::before(sorted[i].path, sorted[j].path) || Path::before(
            sorted[j].path,
            sorted[i].path,
        ) || sorted[i].path == sorted[j].path);
    }
    assert forall|i: int| 0 <= i < sorted.len() implies (#[trigger] sorted[i]).path.len() > 0
        && path::plain(sorted[i].path) by {
        let p = sorted[i].path;
        lemma_one_with_key(sorted, i);
        assert(order::with_key(pairs, p) == order::with_key(by_path(es), p));
        lemma_with_key_len(es, p);
    }
}

/// The Lua module of a name in `lua/`: a directory by its name, a file by its name without the
/// extension.
pub open spec fn module_of(name: Seq<char>, is_dir: bool) -> Seq<char> {
    if is_dir {
        name
    } else {
        path::stem_of(name)
    }
}

/// A name in a directory, and whether it is a directory.
pub open spec fn named_modules(list: Seq<(String, bool)>) -> Seq<Seq<char>> {
    list.map_values(|e: (String, bool)| module_of(e.0@, e.1)).filter(written())
}

pub open spec fn written() -> spec_fn(Seq<char>) -> bool {
    |s: Seq<char>| s.len() > 0
}

/// The Lua modules of the names in `lua/`, each once.
pub fn lua_modules(list: &Vec<(String, bool)>) -> (modules: Vec<String>)
    ensures
        text::strings(modules@) == lazy_registration::first_occurrences(named_modules(list@)),
{
    let ghost all = list@.map_values(|e: (String, bool)| module_of(e.0@, e.1));
    let mut modules: Vec<String> = Vec::new();
    let mut i: usize = 0;
    proof {
        reveal(Seq::filter);
        assert(all.take(0).filter(written()) =~= Seq::<Seq<char>>::empty());
        assert(text::strings(modules@) =~= Seq::<Seq<char>>::empty());
    }
    while i < list.len()
        invariant
            i <= list@.len(),
            all == list@.map_values(|e: (String, bool)| module_of(e.0@, e.1)),
            text::strings(modules@) == lazy_registration::first_occurrences(
                all.take(i as int).filter(written()),
            ),
        decreases list@.len() - i,
    {
        let module = if list[i].1 {
            list[i].0.clone()
        } else {
            path::file_stem(list[i].0.as_str())
        };
        proof {
            reveal(Seq::filter);
            assert(all.take(i as int + 1).drop_last() =~= all.take(i as int));
            assert(all.take(i as int + 1).last() == module@);
        }
        if !text::is_empty(module.as_str()) {
            proof {
                let front = all.take(i as int).filter(written());
                assert(written()(module@));
                assert(front.push(module@).drop_last() =~= front);
            }
            ft_index::push_unique(&mut modules, module.as_str());
        } else {
            assert(!written()(module@));
        }
        i = i + 1;
    }
    assert(all.take(i as int) =~= all);
    modules
}

/// The documentation files of a snapshot as entries of a package: each conflicts with another of
/// its path.
pub open spec fn is_doc_entry(
    entry: (Path, FileItem),
    p: Path,
    source: Arc<FileSource>,
    identity: RepoSnapshotIdentity,
) -> bool {
    &&& entry.0@ == p@
    &&& entry.1.source == source
    &&& entry.1.identity@ == (crate::identity::FileId::RepoFile {
        snapshot: identity@,
        relative_path: p@,
    })
    &&& entry.1.merge_type == MergeType::Conflict
}

/// The documentation files of a snapshot as entries of a package.
pub fn doc_entries(
    docs: &Vec<Path>,
    source: &Arc<FileSource>,
    identity: &RepoSnapshotIdentity,
) -> (entries: Vec<(Path, FileItem)>)
    ensures
        entries@.len() == docs@.len(),
        forall|i: int|
            0 <= i < entries@.len() ==> is_doc_entry(
                #[trigger] entries@[i],
                docs@[i],
                *source,
                *identity,
            ),
{
    let mut entries: Vec<(Path, FileItem)> = Vec::new();
    let mut i: usize = 0;
    while i < docs.len()
        invariant
            i <= docs@.len(),
            entries@.len() == i,
            forall|k: int|
                0 <= k < entries@.len() ==> is_doc_entry(
                    #[trigger] entries@[k],
                    docs@[k],
                    *source,
                    *identity,
                ),
        decreases docs@.len() - i,
    {
        let item = FileItem::new(
            source.clone(),
            FileIdentity::RepoFile(
                RepoFileIdentity::new(identity.duplicate(), docs[i].duplicated()),
            ),
            MergeType::Conflict,
        );
        entries.push((docs[i].duplicated(), item));
        i = i + 1;
    }
    entries
}

/// A directory of the documentation is searched.
pub open spec fn goes_deeper(depth: int, seen_before: bool) -> bool {
    depth <= DOC_DEPTH && !seen_before
}

/// Whether a directory of the documentation is searched: not too deep, and not a second time.
pub fn searches(depth: usize, seen_before: bool) -> (search: bool)
    ensures
        search == goes_deeper(depth as int, seen_before),
{
    depth <= DOC_DEPTH && !seen_before
}

} // verus!
