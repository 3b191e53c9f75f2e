//! The files of a package and how they merge.
//!
//! A package lists its files by path.  A listed directory is sealed: it stands for everything
//! below it in its snapshot.

use crate::identity;
use crate::identity::{FileId, FileIdentity, RepoFileIdentity};
use crate::manifest;
use crate::manifest::{Entry, ManifestKind, SnapshotManifest};
use crate::order;
use crate::order::{Key, SortedMap, SortedSet};
use crate::path;
use crate::path::{Part, Path};
use std::sync::Arc;
use vstd::prelude::*;

pub mod conflicts;
pub mod laws;
pub mod union;
pub mod winners;

verus! {

/// Where a file's data comes from.
pub enum FileSource {
    /// A snapshot tree at `root`.
    Directory { root: Path, inventory: SnapshotManifest },
    /// Data at hand.
    File { data: Vec<u8> },
}

/// What a source is, mathematically.
pub enum Source {
    Directory { root: Seq<Part>, es: Seq<Entry> },
    File { data: Seq<u8> },
}

impl View for FileSource {
    type V = Source;

    open spec fn view(&self) -> Source {
        match self {
            FileSource::Directory { root, inventory } => Source::Directory {
                root: root@,
                es: inventory.es(),
            },
            FileSource::File { data } => Source::File { data: data@ },
        }
    }
}

/// Whether files of the same path may replace each other.
#[derive(Clone, Copy, Debug, PartialEq, Eq, Structural)]
pub enum MergeType {
    /// They conflict.
    Conflict,
    /// The later one replaces the earlier.
    Overwrite,
}

/// The kind of a listed entry.
#[derive(Clone, Copy, Debug, PartialEq, Eq, Structural)]
pub enum FileKind {
    File,
    Directory,
}

/// A listed entry of a package.
pub struct FileItem {
    pub source: Arc<FileSource>,
    pub identity: FileIdentity,
    pub merge_type: MergeType,
}

/// What a listed entry is, mathematically.
pub struct Item {
    pub source: Source,
    pub identity: FileId,
    pub merge_type: MergeType,
}

impl View for FileItem {
    type V = Item;

    open spec fn view(&self) -> Item {
        Item {
            source: (*self.source)@,
            identity: self.identity@,
            merge_type: self.merge_type,
        }
    }
}

/// There is a directory at the path of the source.
pub open spec fn is_dir(source: Source, p: Seq<Part>) -> bool {
    match source {
        Source::Directory { es, .. } => match manifest::kind_at(es, p) {
            Some(ManifestKind::Dir) => true,
            Some(ManifestKind::Symlink) => manifest::followed_at(es, p) == Some(ManifestKind::Dir),
            _ => false,
        },
        Source::File { .. } => false,
    }
}

/// The name is visible below the path of the source.
pub open spec fn has_child(source: Source, p: Seq<Part>, name: Seq<char>) -> bool {
    match source {
        Source::Directory { es, .. } => manifest::child_at(es, p, name),
        Source::File { .. } => false,
    }
}

/// The entry is a directory of its source.
pub open spec fn dir_item(item: Item) -> bool {
    is_dir(item.source, identity::file_path(item.identity))
}

/// The length of the longest path among the entries.
pub open spec fn height(es: Seq<Entry>) -> nat
    decreases es.len(),
{
    if es.len() == 0 {
        0
    } else {
        let rest = height(es.drop_last());
        if es.last().path.len() > rest {
            es.last().path.len()
        } else {
            rest
        }
    }
}

pub proof fn lemma_height(es: Seq<Entry>, i: int)
    requires
        0 <= i < es.len(),
    ensures
        es[i].path.len() <= height(es),
    decreases es.len(),
{
    if i < es.len() - 1 {
        lemma_height(es.drop_last(), i);
        assert(es.drop_last()[i] == es[i]);
    }
}

/// No visible path of the source is longer.
pub open spec fn depth_bound(source: Source) -> nat {
    match source {
        Source::Directory { es, .. } => 2 * height(es),
        Source::File { .. } => 0,
    }
}

pub proof fn lemma_child_bound(source: Source, p: Seq<Part>, name: Seq<char>)
    requires
        has_child(source, p, name),
    ensures
        p.len() + 1 <= depth_bound(source),
{
    let es = source->es;
    let q = p.push(Part::Normal(name));
    if manifest::entry_below(es, p, name) {
        let i = choose|i: int| 0 <= i < es.len() && (#[trigger] es[i]).path == q;
        lemma_height(es, i);
    } else {
        let (l, t) = choose|l: int, t: int| manifest::shows(es, l, t, q);
        lemma_height(es, l);
        lemma_height(es, t);
    }
}

impl FileSource {
    /// An inventory answers for its entries, which are in order.
    pub open spec fn wf(&self) -> bool {
        match self {
            FileSource::Directory { inventory, .. } => inventory.indexed() && manifest::ordered(
                inventory.es(),
            ),
            FileSource::File { .. } => true,
        }
    }

    /// Whether there is a directory at a path.
    pub fn is_dir(&self, rel: &Path) -> (found: bool)
        requires
            self.wf(),
        ensures
            found == is_dir(self@, rel@),
    {
        match self {
            FileSource::File { .. } => false,
            FileSource::Directory { inventory, .. } => match inventory.kind_of(rel) {
                Some(ManifestKind::Dir) => true,
                Some(ManifestKind::Symlink) => match inventory.followed_kind_of(rel) {
                    Some(ManifestKind::Dir) => true,
                    _ => false,
                },
                _ => false,
            },
        }
    }

    /// The names visible below a path.
    pub fn children(&self, rel: &Path) -> (names: SortedSet<String>)
        requires
            self.wf(),
        ensures
            names.wf(),
            forall|n: Seq<char>| #[trigger] names.has(n) <==> has_child(self@, rel@, n),
    {
        match self {
            FileSource::File { .. } => SortedSet::new(),
            FileSource::Directory { inventory, .. } => inventory.child_names(rel),
        }
    }
}

/// Files of these entries conflict.
pub open spec fn conflict(x: Item, y: Item) -> bool {
    x.merge_type == MergeType::Conflict || y.merge_type == MergeType::Conflict
}

/// The component is a name that both sources have below `p`, which both have as a directory.
pub open spec fn common_step(x: Source, y: Source, p: Seq<Part>, c: Part) -> bool {
    &&& c is Normal
    &&& is_dir(x, p)
    &&& is_dir(y, p)
    &&& has_child(x, p, c->Normal_0)
    &&& has_child(y, p, c->Normal_0)
}

/// `q` is reached from `p` through directories that both sources have.
pub open spec fn common_path(x: Source, y: Source, p: Seq<Part>, q: Seq<Part>) -> bool {
    &&& p.is_prefix_of(q)
    &&& forall|n: int| p.len() <= n < q.len() ==> common_step(x, y, q.take(n), #[trigger] q[n])
}

/// The two sources agree at `q`: both have a directory there, or neither does and the files do
/// not conflict.
pub open spec fn agree_at(x: Item, y: Item, q: Seq<Part>) -> bool {
    &&& is_dir(x.source, q) == is_dir(y.source, q)
    &&& is_dir(x.source, q) || !conflict(x, y)
}

/// Two entries listed at `p` can be merged.  Where either is data at hand, both count as files and
/// must not conflict; otherwise they must agree wherever both reach.
pub open spec fn mergeable_at(p: Seq<Part>, x: Item, y: Item) -> bool {
    if x.source is File || y.source is File {
        !conflict(x, y)
    } else {
        forall|q: Seq<Part>| #[trigger] common_path(x.source, y.source, p, q) ==> agree_at(x, y, q)
    }
}

pub proof fn lemma_mergeable_symmetric(p: Seq<Part>, x: Item, y: Item)
    ensures
        mergeable_at(p, x, y) == mergeable_at(p, y, x),
{
    assert forall|q: Seq<Part>| common_path(x.source, y.source, p, q) == #[trigger] common_path(
        y.source,
        x.source,
        p,
        q,
    ) by {
        if common_path(x.source, y.source, p, q) {
            assert forall|n: int| p.len() <= n < q.len() implies common_step(
                y.source,
                x.source,
                q.take(n),
                #[trigger] q[n],
            ) by {
                assert(common_step(x.source, y.source, q.take(n), q[n]));
            }
        }
        if common_path(y.source, x.source, p, q) {
            assert forall|n: int| p.len() <= n < q.len() implies common_step(
                x.source,
                y.source,
                q.take(n),
                #[trigger] q[n],
            ) by {
                assert(common_step(y.source, x.source, q.take(n), q[n]));
            }
        }
    }
    let snapshots = !(x.source is File || y.source is File);
    if snapshots && mergeable_at(p, x, y) {
        assert forall|q: Seq<Part>| #[trigger] common_path(y.source, x.source, p, q) implies agree_at(
            y,
            x,
            q,
        ) by {
            assert(common_path(x.source, y.source, p, q));
        }
    }
    if snapshots && mergeable_at(p, y, x) {
        assert forall|q: Seq<Part>| #[trigger] common_path(x.source, y.source, p, q) implies agree_at(
            x,
            y,
            q,
        ) by {
            assert(common_path(y.source, x.source, p, q));
        }
    }
}

/// Merging below `p` is merging at `p` itself and below each common child.
proof fn lemma_mergeable_step(p: Seq<Part>, x: Item, y: Item)
    requires
        !(x.source is File || y.source is File),
    ensures
        mergeable_at(p, x, y) <==> agree_at(x, y, p) && forall|c: Part| #[trigger]
            common_step(x.source, y.source, p, c) ==> mergeable_at(p.push(c), x, y),
{
    assert(p.is_prefix_of(p)) by {
        assert(p =~= p.subrange(0, p.len() as int));
    }
    assert(common_path(x.source, y.source, p, p));
    if mergeable_at(p, x, y) {
        assert forall|c: Part| #[trigger] common_step(x.source, y.source, p, c) implies mergeable_at(
            p.push(c),
            x,
            y,
        ) by {
            assert forall|q: Seq<Part>| #[trigger]
                common_path(x.source, y.source, p.push(c), q) implies agree_at(x, y, q) by {
                lemma_extend_common(x.source, y.source, p, c, q);
            }
        }
    }
    if agree_at(x, y, p) && forall|c: Part| #[trigger]
        common_step(x.source, y.source, p, c) ==> mergeable_at(p.push(c), x, y) {
        assert forall|q: Seq<Part>| #[trigger] common_path(x.source, y.source, p, q) implies agree_at(
            x,
            y,
            q,
        ) by {
            if q.len() > p.len() {
                let c = q[p.len() as int];
                lemma_shrink_common(x.source, y.source, p, q);
                assert(common_step(x.source, y.source, p, c));
                assert(mergeable_at(p.push(c), x, y));
            } else {
                assert(q =~= p);
            }
        }
    }
}

proof fn lemma_prefix_index(p: Seq<Part>, q: Seq<Part>)
    requires
        p.is_prefix_of(q),
    ensures
        p.len() <= q.len(),
        q.take(p.len() as int) == p,
        forall|i: int| 0 <= i < p.len() ==> #[trigger] p[i] == q[i],
{
    assert(p == q.subrange(0, p.len() as int));
    assert(q.take(p.len() as int) =~= p);
    assert forall|i: int| 0 <= i < p.len() implies #[trigger] p[i] == q[i] by {
        assert(p[i] == q.subrange(0, p.len() as int)[i]);
    }
}

proof fn lemma_prefix_from_index(p: Seq<Part>, q: Seq<Part>)
    requires
        p.len() <= q.len(),
        forall|i: int| 0 <= i < p.len() ==> p[i] == q[i],
    ensures
        p.is_prefix_of(q),
{
    assert(p =~= q.subrange(0, p.len() as int));
}

proof fn lemma_extend_common(x: Source, y: Source, p: Seq<Part>, c: Part, q: Seq<Part>)
    requires
        common_step(x, y, p, c),
        common_path(x, y, p.push(c), q),
    ensures
        common_path(x, y, p, q),
{
    lemma_prefix_index(p.push(c), q);
    assert forall|i: int| 0 <= i < p.len() implies p[i] == q[i] by {
        assert(p.push(c)[i] == q[i]);
    }
    lemma_prefix_from_index(p, q);
    assert(p.push(c)[p.len() as int] == q[p.len() as int]);
    assert(q.take(p.len() as int) =~= p);
    assert forall|n: int| p.len() <= n < q.len() implies common_step(x, y, q.take(n), #[trigger] q[n]) by {
        if n == p.len() {
        } else {
            assert(p.push(c).len() <= n);
        }
    }
}

proof fn lemma_shrink_common(x: Source, y: Source, p: Seq<Part>, q: Seq<Part>)
    requires
        common_path(x, y, p, q),
        q.len() > p.len(),
    ensures
        common_step(x, y, p, q[p.len() as int]),
        common_path(x, y, p.push(q[p.len() as int]), q),
{
    lemma_prefix_index(p, q);
    let c = q[p.len() as int];
    assert(common_step(x, y, q.take(p.len() as int), q[p.len() as int]));
    assert forall|i: int| 0 <= i < p.push(c).len() implies p.push(c)[i] == q[i] by {
        if i < p.len() {
            assert(p[i] == q[i]);
        }
    }
    lemma_prefix_from_index(p.push(c), q);
}

impl FileItem {
    /// The source answers for its entries.
    pub open spec fn wf(&self) -> bool {
        self.source.wf()
    }

    /// A listed entry.
    pub fn new(source: Arc<FileSource>, identity: FileIdentity, merge_type: MergeType) -> (item:
        FileItem)
        ensures
            item.source == source,
            item.identity == identity,
            item.merge_type == merge_type,
    {
        FileItem { source, identity, merge_type }
    }

    fn is_data(&self) -> (is: bool)
        ensures
            is == (self@.source is File),
    {
        match *self.source {
            FileSource::File { .. } => true,
            FileSource::Directory { .. } => false,
        }
    }

    /// Whether the entry is a file or a directory.  Data at hand is a file.
    pub fn kind(&self) -> (kind: FileKind)
        requires
            self.wf(),
        ensures
            kind == (if dir_item(self@) {
                FileKind::Directory
            } else {
                FileKind::File
            }),
    {
        if self.source.is_dir(self.identity.relative_path()) {
            FileKind::Directory
        } else {
            FileKind::File
        }
    }
}

fn may_replace(item: &FileItem, other: &FileItem) -> (may: bool)
    ensures
        may == !conflict(item@, other@),
{
    item.merge_type != MergeType::Conflict && other.merge_type != MergeType::Conflict
}

/// Whether two entries listed at `p` can be merged.
///
/// Two directories can if all they have in common can; a directory and a file cannot; two files
/// can if they do not conflict.  Where either entry is data at hand, both count as files.
pub fn entries_mergeable(p: &Path, item: &FileItem, other: &FileItem) -> (mergeable: bool)
    requires
        item.wf(),
        other.wf(),
    ensures
        mergeable == mergeable_at(p@, item@, other@),
    decreases depth_bound(item@.source) + 1 - p@.len(),
{
    if item.is_data() || other.is_data() {
        return may_replace(item, other);
    }
    let ghost x = item@;
    let ghost y = other@;
    proof {
        lemma_mergeable_step(p@, x, y);
    }
    let x_dir = item.source.is_dir(p);
    let y_dir = other.source.is_dir(p);
    if x_dir != y_dir {
        return false;
    }
    if !x_dir {
        assert forall|c: Part| !#[trigger] common_step(x.source, y.source, p@, c) by {}
        return may_replace(item, other);
    }
    let x_children = item.source.children(p);
    let y_children = other.source.children(p);
    let ghost names = x_children.members();
    let n: usize = x_children.len();
    let mut i: usize = 0;
    while i < n
        invariant
            i <= n,
            n == names.len(),
            names == x_children.members(),
            x == item@,
            y == other@,
            item.wf(),
            other.wf(),
            !(x.source is File || y.source is File),
            is_dir(x.source, p@),
            is_dir(y.source, p@),
            y_children.wf(),
            forall|c: Seq<char>| #[trigger] x_children.has(c) <==> has_child(x.source, p@, c),
            forall|c: Seq<char>| #[trigger] y_children.has(c) <==> has_child(y.source, p@, c),
            mergeable_at(p@, x, y) <==> agree_at(x, y, p@) && forall|c: Part| #[trigger]
                common_step(x.source, y.source, p@, c) ==> mergeable_at(p@.push(c), x, y),
            forall|k: int|
                0 <= k < i && common_step(
                    x.source,
                    y.source,
                    p@,
                    Part::Normal(#[trigger] names[k]),
                ) ==> mergeable_at(p@.push(Part::Normal(names[k])), x, y),
        decreases n - i,
    {
        let name = x_children.at(i);
        assert(names.contains(names[i as int]));
        assert(x_children.has(name@));
        if y_children.contains(name) {
            let below = p.child(name.as_str());
            proof {
                lemma_child_bound(x.source, p@, name@);
                assert(common_step(x.source, y.source, p@, Part::Normal(name@)));
            }
            if !entries_mergeable(&below, item, other) {
                return false;
            }
        }
        i = i + 1;
    }
    assert forall|c: Part| #[trigger] common_step(x.source, y.source, p@, c) implies mergeable_at(
        p@.push(c),
        x,
        y,
    ) by {
        let name = c->Normal_0;
        assert(x_children.has(name));
        let k = choose|k: int| 0 <= k < names.len() && names[k] == name;
        assert(common_step(x.source, y.source, p@, Part::Normal(names[k])));
    }
    true
}

/// All entries of a package are well formed.
pub open spec fn files_wf(files: SortedMap<Path, FileItem>) -> bool {
    files.wf() && forall|p: Seq<Part>| #[trigger] files.has(p) ==> files.at(p).wf()
}

/// The entries of a package by path.
pub open spec fn files_map(files: SortedMap<Path, FileItem>) -> Map<Seq<Part>, Item> {
    Map::new(|p: Seq<Part>| files.has(p), |p: Seq<Part>| files.at(p)@)
}

/// Two packages can be merged: what both list can.
pub open spec fn packages_mergeable(a: Map<Seq<Part>, Item>, b: Map<Seq<Part>, Item>) -> bool {
    forall|p: Seq<Part>| #[trigger]
        a.contains_key(p) && b.contains_key(p) ==> mergeable_at(p, a[p], b[p])
}

pub proof fn lemma_packages_symmetric(a: Map<Seq<Part>, Item>, b: Map<Seq<Part>, Item>)
    ensures
        packages_mergeable(a, b) == packages_mergeable(b, a),
{
    assert forall|p: Seq<Part>| a.contains_key(p) && b.contains_key(p) implies mergeable_at(
        p,
        a[p],
        b[p],
    ) == mergeable_at(p, b[p], a[p]) by {
        lemma_mergeable_symmetric(p, a[p], b[p]);
    }
}

fn listed_mergeable(small: &SortedMap<Path, FileItem>, large: &SortedMap<Path, FileItem>) -> (mergeable: bool)
    requires
        files_wf(*small),
        files_wf(*large),
    ensures
        mergeable == packages_mergeable(files_map(*small), files_map(*large)),
{
    let ghost a = files_map(*small);
    let ghost b = files_map(*large);
    let n: usize = small.len();
    let mut i: usize = 0;
    while i < n
        invariant
            i <= n,
            n == small.keys().len(),
            files_wf(*small),
            files_wf(*large),
            a == files_map(*small),
            b == files_map(*large),
            forall|k: int|
                0 <= k < i && b.contains_key(#[trigger] small.keys()[k]) ==> mergeable_at(
                    small.keys()[k],
                    a[small.keys()[k]],
                    b[small.keys()[k]],
                ),
        decreases n - i,
    {
        let p = small.key_at(i);
        let item = small.value_at(i);
        proof {
            small.lemma_at(i as int);
        }
        if let Some(other) = large.get(p) {
            if !entries_mergeable(p, item, other) {
                proof {
                    assert(a.contains_key(p@) && b.contains_key(p@));
                    assert(!mergeable_at(p@, a[p@], b[p@]));
                }
                return false;
            }
        }
        i = i + 1;
    }
    assert forall|p: Seq<Part>| #[trigger] a.contains_key(p) && b.contains_key(p) implies mergeable_at(
        p,
        a[p],
        b[p],
    ) by {
        let k = small.keys().index_of(p);
        assert(small.keys()[k] == p);
    }
    true
}

/// Whether two packages can be merged.
pub fn dirs_mergeable(files: &SortedMap<Path, FileItem>, rfiles: &SortedMap<Path, FileItem>) -> (mergeable: bool)
    requires
        files_wf(*files),
        files_wf(*rfiles),
    ensures
        mergeable == packages_mergeable(files_map(*files), files_map(*rfiles)),
{
    proof {
        lemma_packages_symmetric(files_map(*files), files_map(*rfiles));
    }
    if files.len() <= rfiles.len() {
        listed_mergeable(files, rfiles)
    } else {
        listed_mergeable(rfiles, files)
    }
}

/// The entry that `item`, a sealed directory, has at `p`.
pub open spec fn child_of(item: Item, p: Seq<Part>) -> Item {
    Item {
        source: item.source,
        identity: match item.identity {
            FileId::RepoFile { snapshot, .. } => FileId::RepoFile { snapshot, relative_path: p },
            FileId::GeneratedFile { path, data_hash } => FileId::GeneratedFile { path, data_hash },
        },
        merge_type: item.merge_type,
    }
}

/// Both entries have a directory named `c` below `p`.
pub open spec fn shared_dir(l: Item, r: Item, p: Seq<Part>, c: Part) -> bool {
    &&& c is Normal
    &&& has_child(l.source, p, c->Normal_0)
    &&& has_child(r.source, p, c->Normal_0)
    &&& dir_item(child_of(l, p.push(c)))
    &&& dir_item(child_of(r, p.push(c)))
}

/// Merging two directories at `p` lists `q`: it is a child, of one of them at least, of a
/// directory that both have, without itself being a directory that both have.
pub open spec fn expands_to(p: Seq<Part>, l: Item, r: Item, q: Seq<Part>) -> bool {
    &&& p.is_prefix_of(q)
    &&& p.len() < q.len()
    &&& forall|n: int|
        p.len() <= n < q.len() - 1 ==> shared_dir(l, r, q.take(n), #[trigger] q[n])
    &&& q.last() is Normal
    &&& has_child(l.source, q.drop_last(), q.last()->Normal_0) || has_child(
        r.source,
        q.drop_last(),
        q.last()->Normal_0,
    )
    &&& !shared_dir(l, r, q.drop_last(), q.last())
}

/// Of two directories the second gives what it has, the first the rest.
pub open spec fn preferred(l: Item, r: Item, q: Seq<Part>) -> Item {
    if has_child(r.source, q.drop_last(), q.last()->Normal_0) {
        child_of(r, q)
    } else {
        child_of(l, q)
    }
}

/// What two directories at `p` are merged into.
pub open spec fn expansion(p: Seq<Part>, l: Item, r: Item) -> Map<Seq<Part>, Item> {
    Map::new(|q: Seq<Part>| expands_to(p, l, r, q), |q: Seq<Part>| preferred(l, r, q))
}

/// The part of the expansion below the children with these names.
spec fn expansion_below(p: Seq<Part>, l: Item, r: Item, names: Seq<Seq<char>>) -> Map<
    Seq<Part>,
    Item,
> {
    Map::new(
        |q: Seq<Part>|
            expands_to(p, l, r, q) && q[p.len() as int] is Normal && names.contains(
                q[p.len() as int]->Normal_0,
            ),
        |q: Seq<Part>| preferred(l, r, q),
    )
}

proof fn lemma_child_again(item: Item, a: Seq<Part>, b: Seq<Part>)
    ensures
        child_of(child_of(item, a), b) == child_of(item, b),
{
}

/// Below a shared directory the expansion is that of its two sides.
proof fn lemma_expansion_shared(p: Seq<Part>, l: Item, r: Item, c: Part, q: Seq<Part>)
    requires
        shared_dir(l, r, p, c),
    ensures
        expands_to(p.push(c), child_of(l, p.push(c)), child_of(r, p.push(c)), q) <==> expands_to(
            p,
            l,
            r,
            q,
        ) && q[p.len() as int] == c,
        preferred(child_of(l, p.push(c)), child_of(r, p.push(c)), q) == preferred(l, r, q),
{
    let pc = p.push(c);
    let lc = child_of(l, pc);
    let rc = child_of(r, pc);
    assert forall|a: Seq<Part>, d: Part| #[trigger] shared_dir(lc, rc, a, d) == shared_dir(l, r, a, d) by {
        lemma_child_again(l, pc, a.push(d));
        lemma_child_again(r, pc, a.push(d));
    }
    if expands_to(pc, lc, rc, q) {
        lemma_prefix_index(pc, q);
        assert(pc[p.len() as int] == q[p.len() as int]);
        assert forall|i: int| 0 <= i < p.len() implies p[i] == q[i] by {
            assert(pc[i] == q[i]);
        }
        lemma_prefix_from_index(p, q);
        assert forall|n: int| p.len() <= n < q.len() - 1 implies shared_dir(l, r, q.take(n), #[trigger] q[n]) by {
            if n == p.len() {
                assert(q.take(n) =~= p);
            } else {
                assert(shared_dir(lc, rc, q.take(n), q[n]));
            }
        }
        assert(shared_dir(lc, rc, q.drop_last(), q.last()) == shared_dir(
            l,
            r,
            q.drop_last(),
            q.last(),
        ));
    }
    if expands_to(p, l, r, q) && q[p.len() as int] == c {
        lemma_prefix_index(p, q);
        if q.len() == p.len() + 1 {
            assert(q.drop_last() =~= p);
            assert(q.last() == c);
        }
        assert forall|i: int| 0 <= i < pc.len() implies pc[i] == q[i] by {
            if i < p.len() {
                assert(p[i] == q[i]);
            }
        }
        lemma_prefix_from_index(pc, q);
        assert forall|n: int| pc.len() <= n < q.len() - 1 implies shared_dir(lc, rc, q.take(n), #[trigger] q[n]) by {
            assert(shared_dir(l, r, q.take(n), q[n]));
        }
        assert(shared_dir(lc, rc, q.drop_last(), q.last()) == shared_dir(
            l,
            r,
            q.drop_last(),
            q.last(),
        ));
    }
}

/// Below a child that is no shared directory the expansion is the child itself.
proof fn lemma_expansion_single(p: Seq<Part>, l: Item, r: Item, c: Part, q: Seq<Part>)
    requires
        c is Normal,
        !shared_dir(l, r, p, c),
    ensures
        expands_to(p, l, r, q) && q[p.len() as int] == c <==> q == p.push(c) && (has_child(
            l.source,
            p,
            c->Normal_0,
        ) || has_child(r.source, p, c->Normal_0)),
{
    let pc = p.push(c);
    if expands_to(p, l, r, q) && q[p.len() as int] == c {
        lemma_prefix_index(p, q);
        if q.len() > p.len() + 1 {
            assert(shared_dir(l, r, q.take(p.len() as int), q[p.len() as int]));
        }
        assert(q =~= pc);
        assert(q.drop_last() =~= p);
    }
    if q == pc {
        assert(q.drop_last() =~= p);
        assert(q.last() == c);
        lemma_prefix_from_index(p, q);
    }
}

proof fn lemma_below_step(p: Seq<Part>, l: Item, r: Item, names: Seq<Seq<char>>, name: Seq<char>)
    ensures
        ({
            let c = Part::Normal(name);
            let pc = p.push(c);
            let before = expansion_below(p, l, r, names);
            let after = expansion_below(p, l, r, names.push(name));
            &&& shared_dir(l, r, p, c) ==> after == before.union_prefer_right(
                expansion(pc, child_of(l, pc), child_of(r, pc)),
            )
            &&& !shared_dir(l, r, p, c) && (has_child(l.source, p, name) || has_child(
                r.source,
                p,
                name,
            )) ==> after == before.insert(pc, preferred(l, r, pc))
        }),
{
    let c = Part::Normal(name);
    let pc = p.push(c);
    let before = expansion_below(p, l, r, names);
    let after = expansion_below(p, l, r, names.push(name));
    assert forall|q: Seq<Part>| #[trigger] after.contains_key(q) <==> before.contains_key(q) || (
    expands_to(p, l, r, q) && q[p.len() as int] == c) by {
        if expands_to(p, l, r, q) && q[p.len() as int] is Normal {
            order::lemma_contains_push(names, name, q[p.len() as int]->Normal_0);
        }
    }
    if shared_dir(l, r, p, c) {
        let other = expansion(pc, child_of(l, pc), child_of(r, pc));
        assert forall|q: Seq<Part>| #[trigger] other.contains_key(q) <==> expands_to(p, l, r, q)
            && q[p.len() as int] == c by {
            lemma_expansion_shared(p, l, r, c, q);
        }
        assert(after =~= before.union_prefer_right(other)) by {
            assert forall|q: Seq<Part>| after.contains_key(q) implies #[trigger] after[q]
                == before.union_prefer_right(other)[q] by {
                lemma_expansion_shared(p, l, r, c, q);
            }
        }
    } else if has_child(l.source, p, name) || has_child(r.source, p, name) {
        let wanted = before.insert(pc, preferred(l, r, pc));
        assert(after =~= wanted) by {
            assert forall|q: Seq<Part>| #[trigger] after.contains_key(q) <==> wanted.contains_key(q) by {
                lemma_expansion_single(p, l, r, c, q);
            }
        }
    }
}

/// The entry that `parent`, a sealed directory, has at `p`.
pub fn child_item(parent: &FileItem, p: Path) -> (item: FileItem)
    requires
        parent.wf(),
    ensures
        item@ == child_of(parent@, p@),
        item.wf(),
{
    let identity = match &parent.identity {
        FileIdentity::RepoFile(r) => FileIdentity::RepoFile(
            RepoFileIdentity::new(r.snapshot.duplicate(), p),
        ),
        FileIdentity::GeneratedFile { .. } => parent.identity.duplicate(),
    };
    FileItem { source: parent.source.clone(), identity, merge_type: parent.merge_type }
}

fn put(files: &mut SortedMap<Path, FileItem>, p: Path, item: FileItem)
    requires
        files_wf(*old(files)),
        item.wf(),
    ensures
        files_wf(*final(files)),
        files_map(*final(files)) == files_map(*old(files)).insert(p@, item@),
{
    let ghost before = *files;
    let ghost m = p@;
    files.insert(p, item);
    proof {
        assert forall|q: Seq<Part>| #[trigger] files.has(q) implies files.at(q).wf() by {
            if q != m {
                assert(before.has(q));
            }
        }
        assert(files_map(*files) =~= files_map(before).insert(m, item@));
    }
}

fn take(files: &mut SortedMap<Path, FileItem>, p: &Path) -> (taken: Option<FileItem>)
    requires
        files_wf(*old(files)),
    ensures
        files_wf(*final(files)),
        files_map(*final(files)) == files_map(*old(files)).remove(p@),
        match taken {
            Some(item) => item.wf() && files_map(*old(files)).contains_key(p@) && item@ == files_map(
                *old(files),
            )[p@],
            None => !files_map(*old(files)).contains_key(p@),
        },
{
    let ghost before = *files;
    let taken = files.remove(p);
    proof {
        assert forall|q: Seq<Part>| #[trigger] files.has(q) implies files.at(q).wf() by {
            assert(before.has(q));
        }
        assert(files_map(*files) =~= files_map(before).remove(p@));
    }
    taken
}

/// Lists what two directories at `p` are merged into.
pub fn expand_dir_union(
    out: &mut SortedMap<Path, FileItem>,
    p: &Path,
    litem: &FileItem,
    ritem: &FileItem,
)
    requires
        files_wf(*old(out)),
        litem.wf(),
        ritem.wf(),
    ensures
        files_wf(*final(out)),
        files_map(*final(out)) == files_map(*old(out)).union_prefer_right(
            expansion(p@, litem@, ritem@),
        ),
    decreases depth_bound(litem@.source) + 1 - p@.len(),
{
    let ghost base = files_map(*out);
    let ghost l = litem@;
    let ghost r = ritem@;
    let lchildren = litem.source.children(p);
    let rchildren = ritem.source.children(p);
    let ghost lnames = lchildren.members();
    let ghost rnames = rchildren.members();
    let n: usize = lchildren.len();
    let mut i: usize = 0;
    proof {
        assert(lnames.take(0) =~= Seq::<Seq<char>>::empty());
        assert(base.union_prefer_right(expansion_below(p@, l, r, lnames.take(0))) =~= base);
    }
    while i < n
        invariant
            i <= n,
            n == lnames.len(),
            lnames == lchildren.members(),
            l == litem@,
            r == ritem@,
            litem.wf(),
            ritem.wf(),
            rchildren.wf(),
            forall|c: Seq<char>| #[trigger] lchildren.has(c) <==> has_child(l.source, p@, c),
            forall|c: Seq<char>| #[trigger] rchildren.has(c) <==> has_child(r.source, p@, c),
            files_wf(*out),
            files_map(*out) == base.union_prefer_right(
                expansion_below(p@, l, r, lnames.take(i as int)),
            ),
        decreases n - i,
    {
        let name = lchildren.at(i);
        let ghost c = Part::Normal(name@);
        let ghost done = lnames.take(i as int);
        proof {
            assert(lnames.contains(lnames[i as int]));
            assert(lchildren.has(name@));
            assert(lnames.take(i as int + 1) =~= done.push(name@));
            lemma_below_step(p@, l, r, done, name@);
            lemma_child_bound(l.source, p@, name@);
            assert(p@.push(c).drop_last() =~= p@);
        }
        let below = p.child(name.as_str());
        let lc = child_item(litem, below.duplicated());
        let ghost now = files_map(*out);
        if rchildren.contains(name) {
            let rc = child_item(ritem, below.duplicated());
            let both = match (lc.kind(), rc.kind()) {
                (FileKind::Directory, FileKind::Directory) => true,
                _ => false,
            };
            if both {
                expand_dir_union(out, &below, &lc, &rc);
                assert(files_map(*out) =~= base.union_prefer_right(
                    expansion_below(p@, l, r, lnames.take(i as int + 1)),
                ));
            } else {
                put(out, below, rc);
                assert(files_map(*out) =~= base.union_prefer_right(
                    expansion_below(p@, l, r, lnames.take(i as int + 1)),
                ));
            }
        } else {
            put(out, below, lc);
            assert(files_map(*out) =~= base.union_prefer_right(
                expansion_below(p@, l, r, lnames.take(i as int + 1)),
            ));
        }
        i = i + 1;
    }
    assert(lnames.take(n as int) =~= lnames);
    let m: usize = rchildren.len();
    let mut j: usize = 0;
    assert(lnames + rnames.take(0) =~= lnames);
    while j < m
        invariant
            j <= m,
            m == rnames.len(),
            lnames == lchildren.members(),
            rnames == rchildren.members(),
            l == litem@,
            r == ritem@,
            ritem.wf(),
            lchildren.wf(),
            forall|c: Seq<char>| #[trigger] lchildren.has(c) <==> has_child(l.source, p@, c),
            forall|c: Seq<char>| #[trigger] rchildren.has(c) <==> has_child(r.source, p@, c),
            files_wf(*out),
            files_map(*out) == base.union_prefer_right(
                expansion_below(p@, l, r, lnames + rnames.take(j as int)),
            ),
        decreases m - j,
    {
        let name = rchildren.at(j);
        let ghost c = Part::Normal(name@);
        let ghost done = lnames + rnames.take(j as int);
        proof {
            assert(rnames.contains(rnames[j as int]));
            assert(rchildren.has(name@));
            assert(rnames.take(j as int + 1) =~= rnames.take(j as int).push(name@));
            assert(lnames + rnames.take(j as int + 1) =~= done.push(name@));
            lemma_below_step(p@, l, r, done, name@);
            assert(p@.push(c).drop_last() =~= p@);
        }
        if !lchildren.contains(name) {
            let below = p.child(name.as_str());
            let rc = child_item(ritem, below.duplicated());
            put(out, below, rc);
            assert(files_map(*out) =~= base.union_prefer_right(
                expansion_below(p@, l, r, lnames + rnames.take(j as int + 1)),
            ));
        } else {
            proof {
                lemma_below_again(p@, l, r, done, name@, lnames);
            }
        }
        j = j + 1;
    }
    proof {
        assert(rnames.take(m as int) =~= rnames);
        lemma_below_all(p@, l, r, lnames + rnames, lchildren, rchildren);
        assert(expansion_below(p@, l, r, lnames + rnames) =~= expansion(p@, l, r));
    }
}

proof fn lemma_below_again(
    p: Seq<Part>,
    l: Item,
    r: Item,
    done: Seq<Seq<char>>,
    name: Seq<char>,
    lnames: Seq<Seq<char>>,
)
    requires
        lnames.contains(name),
        lnames.is_prefix_of(done),
    ensures
        expansion_below(p, l, r, done.push(name)) == expansion_below(p, l, r, done),
{
    let k = choose|k: int| 0 <= k < lnames.len() && lnames[k] == name;
    assert(lnames == done.subrange(0, lnames.len() as int));
    assert(done[k] == lnames[k]);
    assert(done.contains(name));
    assert forall|x: Seq<char>| done.push(name).contains(x) == #[trigger] done.contains(x) by {
        order::lemma_contains_push(done, name, x);
    }
    assert(expansion_below(p, l, r, done.push(name)) =~= expansion_below(p, l, r, done));
}

proof fn lemma_below_all(
    p: Seq<Part>,
    l: Item,
    r: Item,
    names: Seq<Seq<char>>,
    lchildren: SortedSet<String>,
    rchildren: SortedSet<String>,
)
    requires
        names == lchildren.members() + rchildren.members(),
        forall|c: Seq<char>| #[trigger] lchildren.has(c) <==> has_child(l.source, p, c),
        forall|c: Seq<char>| #[trigger] rchildren.has(c) <==> has_child(r.source, p, c),
    ensures
        forall|q: Seq<Part>| #[trigger]
            expands_to(p, l, r, q) ==> q[p.len() as int] is Normal && names.contains(
                q[p.len() as int]->Normal_0,
            ),
{
    assert forall|q: Seq<Part>| #[trigger] expands_to(p, l, r, q) implies q[p.len() as int] is Normal
        && names.contains(q[p.len() as int]->Normal_0) by {
        lemma_prefix_index(p, q);
        let c = q[p.len() as int];
        if q.len() > p.len() + 1 {
            assert(shared_dir(l, r, q.take(p.len() as int), q[p.len() as int]));
        } else {
            assert(q.drop_last() =~= p);
            assert(q.last() == c);
        }
        let name = c->Normal_0;
        if has_child(l.source, p, name) {
            assert(lchildren.has(name));
            let k = lchildren.members().index_of(name);
            assert(names[k] == name);
        } else {
            assert(rchildren.has(name));
            let k = rchildren.members().index_of(name);
            assert(names[lchildren.members().len() + k] == name);
        }
    }
}

/// Lists `item` at `p`: two directories are merged, and otherwise the new entry replaces the
/// old one.
pub open spec fn placed(m: Map<Seq<Part>, Item>, p: Seq<Part>, item: Item) -> Map<Seq<Part>, Item> {
    if m.contains_key(p) && dir_item(m[p]) && dir_item(item) {
        m.remove(p).union_prefer_right(expansion(p, m[p], item))
    } else {
        m.insert(p, item)
    }
}

/// Lists entries one after the other.
pub open spec fn placed_all(m: Map<Seq<Part>, Item>, list: Seq<(Seq<Part>, Item)>) -> Map<
    Seq<Part>,
    Item,
>
    decreases list.len(),
{
    if list.len() == 0 {
        m
    } else {
        placed(placed_all(m, list.drop_last()), list.last().0, list.last().1)
    }
}

/// The entries of a package in path order.
pub open spec fn listing(files: SortedMap<Path, FileItem>) -> Seq<(Seq<Part>, Item)> {
    Seq::new(files.keys().len(), |i: int| (files.keys()[i], files.values()[i]@))
}

/// The names below a path of a source, in order.
pub open spec fn child_names(source: Source, p: Seq<Part>) -> Seq<Seq<char>> {
    choose|names: Seq<Seq<char>>|
        order::ascending::<String>(names) && forall|n: Seq<char>| #[trigger]
            names.contains(n) <==> has_child(source, p, n)
}

/// The entries directly below a sealed directory.
pub open spec fn child_listing(item: Item, p: Seq<Part>) -> Seq<(Seq<Part>, Item)> {
    child_names(item.source, p).map_values(
        |n: Seq<char>| (p.push(Part::Normal(n)), child_of(item, p.push(Part::Normal(n)))),
    )
}

/// `p` is a sealed directory although something below it is listed too.
pub open spec fn blocked(m: Map<Seq<Part>, Item>, p: Seq<Part>) -> bool {
    &&& m.contains_key(p)
    &&& dir_item(m[p])
    &&& exists|d: Seq<Part>| #[trigger] m.contains_key(d) && p.is_prefix_of(d) && p != d
}

/// `p` is the first such directory.
pub open spec fn first_blocked(m: Map<Seq<Part>, Item>, p: Seq<Part>) -> bool {
    blocked(m, p) && forall|q: Seq<Part>| #[trigger]
        blocked(m, q) ==> q == p || path::path_before(p, q)
}

/// The sealed directory at `p` replaced by what it holds.
pub open spec fn unsealed(m: Map<Seq<Part>, Item>, p: Seq<Part>) -> Map<Seq<Part>, Item> {
    placed_all(m.remove(p), child_listing(m[p], p))
}

/// The first `n` times that the first blocked directory is replaced.
pub open spec fn unseal_steps(m: Map<Seq<Part>, Item>, n: nat) -> Map<Seq<Part>, Item>
    decreases n,
{
    if n == 0 {
        m
    } else {
        let before = unseal_steps(m, (n - 1) as nat);
        if exists|p: Seq<Part>| first_blocked(before, p) {
            unsealed(before, choose|p: Seq<Part>| first_blocked(before, p))
        } else {
            before
        }
    }
}

/// Nothing listed stands below a sealed directory.
pub open spec fn unblocked(m: Map<Seq<Part>, Item>) -> bool {
    forall|p: Seq<Part>| !#[trigger] blocked(m, p)
}

/// `done` comes of `m` by replacing the first blocked directory until none is left.
pub open spec fn normal_form(m: Map<Seq<Part>, Item>, done: Map<Seq<Part>, Item>) -> bool {
    unblocked(done) && exists|n: nat| #[trigger] unseal_steps(m, n) == done
}

/// A package has one normal form.
pub proof fn law_normal_form_unique(
    m: Map<Seq<Part>, Item>,
    a: Map<Seq<Part>, Item>,
    b: Map<Seq<Part>, Item>,
)
    requires
        normal_form(m, a),
        normal_form(m, b),
    ensures
        a == b,
{
    let i = choose|n: nat| #[trigger] unseal_steps(m, n) == a;
    let j = choose|n: nat| #[trigger] unseal_steps(m, n) == b;
    if i <= j {
        lemma_steps_stop(m, i, j);
    } else {
        lemma_steps_stop(m, j, i);
    }
}

proof fn lemma_steps_stop(m: Map<Seq<Part>, Item>, i: nat, j: nat)
    requires
        i <= j,
        unblocked(unseal_steps(m, i)),
    ensures
        unseal_steps(m, j) == unseal_steps(m, i),
    decreases j,
{
    if i < j {
        lemma_steps_stop(m, i, (j - 1) as nat);
        let before = unseal_steps(m, (j - 1) as nat);
        assert forall|p: Seq<Part>| !first_blocked(before, p) by {
            assert(!blocked(before, p));
        }
    }
}

proof fn lemma_first_blocked_unique(m: Map<Seq<Part>, Item>, p: Seq<Part>, q: Seq<Part>)
    requires
        first_blocked(m, p),
        first_blocked(m, q),
    ensures
        p == q,
{
    path::lemma_path_order();
    if p != q {
        assert(blocked(m, p) && blocked(m, q));
        assert(path::path_before(p, q) && path::path_before(q, p));
        assert(path::path_before(p, p));
    }
}

/// Lists `item` at `p`.
fn place(files: &mut SortedMap<Path, FileItem>, p: Path, item: FileItem)
    requires
        files_wf(*old(files)),
        item.wf(),
    ensures
        files_wf(*final(files)),
        files_map(*final(files)) == placed(files_map(*old(files)), p@, item@),
{
    let ghost m = files_map(*files);
    match take(files, &p) {
        None => {
            put(files, p, item);
            assert(files_map(*files) =~= m.insert(p@, item@));
        },
        Some(existing) => {
            let both = match (existing.kind(), item.kind()) {
                (FileKind::Directory, FileKind::Directory) => true,
                _ => false,
            };
            if both {
                expand_dir_union(files, &p, &existing, &item);
            } else {
                put(files, p, item);
                assert(files_map(*files) =~= m.insert(p@, item@));
            }
        },
    }
}

/// Replaces the sealed directory at `p` by what it holds.
pub fn expand_sealed_into(files: &mut SortedMap<Path, FileItem>, p: &Path, sealed: &FileItem)
    requires
        files_wf(*old(files)),
        sealed.wf(),
    ensures
        files_wf(*final(files)),
        files_map(*final(files)) == placed_all(
            files_map(*old(files)),
            child_listing(sealed@, p@),
        ),
        forall|n: Seq<char>| #[trigger]
            child_names(sealed@.source, p@).contains(n) <==> has_child(sealed@.source, p@, n),
{
    let ghost m = files_map(*files);
    let children = sealed.source.children(p);
    let ghost names = children.members();
    proof {
        assert forall|n: Seq<char>| #[trigger] names.contains(n) <==> has_child(
            sealed@.source,
            p@,
            n,
        ) by {
            assert(children.has(n) == names.contains(n));
        }
        lemma_child_names(sealed@.source, p@, names);
    }
    let ghost list = child_listing(sealed@, p@);
    let n: usize = children.len();
    let mut i: usize = 0;
    assert(list.take(0) =~= Seq::<(Seq<Part>, Item)>::empty());
    while i < n
        invariant
            i <= n,
            n == names.len(),
            names == children.members(),
            names == child_names(sealed@.source, p@),
            list == child_listing(sealed@, p@),
            sealed.wf(),
            files_wf(*files),
            files_map(*files) == placed_all(m, list.take(i as int)),
        decreases n - i,
    {
        let name = children.at(i);
        let below = p.child(name.as_str());
        let item = child_item(sealed, below.duplicated());
        proof {
            assert(list[i as int] == (below@, item@));
            assert(list.take(i as int + 1).drop_last() =~= list.take(i as int));
            assert(list.take(i as int + 1).last() == list[i as int]);
        }
        place(files, below, item);
        i = i + 1;
    }
    assert(list.take(n as int) =~= list);
}

proof fn lemma_child_names(source: Source, p: Seq<Part>, names: Seq<Seq<char>>)
    requires
        order::ascending::<String>(names),
        forall|n: Seq<char>| #[trigger] names.contains(n) <==> has_child(source, p, n),
    ensures
        child_names(source, p) == names,
{
    let chosen = child_names(source, p);
    assert(order::ascending::<String>(chosen) && forall|n: Seq<char>| #[trigger]
        chosen.contains(n) <==> has_child(source, p, n));
    order::lemma_ascending_unique::<String>(chosen, names);
}

/// The paths that a source shows.
spec fn tree(source: Source) -> Set<Seq<Part>> {
    Set::new(
        |q: Seq<Part>|
            q.len() > 0 && q.last() is Normal && has_child(
                source,
                q.drop_last(),
                q.last()->Normal_0,
            ),
    )
}

spec fn entry_paths(es: Seq<Entry>) -> Set<Seq<Part>> {
    es.map_values(|e: Entry| e.path).to_set()
}

spec fn overlay_row(es: Seq<Entry>, l: int, upto: nat) -> Set<Seq<Part>>
    decreases upto,
{
    if upto == 0 {
        Set::empty()
    } else {
        let rest = overlay_row(es, l, (upto - 1) as nat);
        match manifest::overlay(es, l, upto - 1) {
            Some(q) => rest.insert(q),
            None => rest,
        }
    }
}

spec fn overlay_rows(es: Seq<Entry>, upto: nat) -> Set<Seq<Part>>
    decreases upto,
{
    if upto == 0 {
        Set::empty()
    } else {
        overlay_rows(es, (upto - 1) as nat).union(overlay_row(es, upto - 1, es.len()))
    }
}

proof fn lemma_overlay_row(es: Seq<Entry>, l: int, upto: nat)
    ensures
        overlay_row(es, l, upto).finite(),
        forall|t: int|
            0 <= t < upto && (#[trigger] manifest::overlay(es, l, t)) is Some ==> overlay_row(
                es,
                l,
                upto,
            ).contains(manifest::overlay(es, l, t)->0),
    decreases upto,
{
    if upto > 0 {
        lemma_overlay_row(es, l, (upto - 1) as nat);
    }
}

proof fn lemma_overlay_rows(es: Seq<Entry>, upto: nat)
    ensures
        overlay_rows(es, upto).finite(),
        forall|l: int, t: int|
            0 <= l < upto && 0 <= t < es.len() && (#[trigger] manifest::overlay(es, l, t)) is Some
                ==> overlay_rows(es, upto).contains(manifest::overlay(es, l, t)->0),
    decreases upto,
{
    if upto > 0 {
        lemma_overlay_rows(es, (upto - 1) as nat);
        lemma_overlay_row(es, upto - 1, es.len());
        assert forall|l: int, t: int|
            0 <= l < upto && 0 <= t < es.len() && (#[trigger] manifest::overlay(es, l, t)) is Some implies overlay_rows(
            es,
            upto,
        ).contains(manifest::overlay(es, l, t)->0) by {
            if l == upto - 1 {
                assert(overlay_row(es, l, es.len()).contains(manifest::overlay(es, l, t)->0));
            }
        }
    }
}

proof fn lemma_tree_finite(source: Source)
    ensures
        tree(source).finite(),
{
    match source {
        Source::File { .. } => {
            assert(tree(source) =~= Set::<Seq<Part>>::empty());
        },
        Source::Directory { es, .. } => {
            let paths = es.map_values(|e: Entry| e.path);
            vstd::seq_lib::seq_to_set_is_finite(paths);
            lemma_overlay_rows(es, es.len());
            let all = entry_paths(es).union(overlay_rows(es, es.len()));
            assert forall|q: Seq<Part>| tree(source).contains(q) implies all.contains(q) by {
                let p = q.drop_last();
                assert(q =~= p.push(q.last()));
                if manifest::entry_below(es, p, q.last()->Normal_0) {
                    let i = choose|i: int| 0 <= i < es.len() && (#[trigger] es[i]).path == q;
                    assert(paths[i] == q);
                    assert(paths.contains(q));
                } else {
                    let (l, t) = choose|l: int, t: int| manifest::shows(es, l, t, q);
                    assert(manifest::overlay(es, l, t) == Some(q));
                }
            }
            vstd::set_lib::lemma_len_subset(tree(source), all);
        },
    }
}

/// Every listed path, and everything that its source shows, is in `u`.
spec fn within(m: Map<Seq<Part>, Item>, u: Set<Seq<Part>>) -> bool {
    forall|p: Seq<Part>| #[trigger]
        m.contains_key(p) ==> u.contains(p) && tree(m[p].source).subset_of(u)
}

proof fn lemma_placed_within(m: Map<Seq<Part>, Item>, p: Seq<Part>, item: Item, u: Set<Seq<Part>>)
    requires
        within(m, u),
        u.contains(p),
        tree(item.source).subset_of(u),
    ensures
        within(placed(m, p, item), u),
{
    let after = placed(m, p, item);
    assert forall|q: Seq<Part>| #[trigger] after.contains_key(q) implies u.contains(q) && tree(
        after[q].source,
    ).subset_of(u) by {
        if m.contains_key(p) && dir_item(m[p]) && dir_item(item) {
            let e = expansion(p, m[p], item);
            if e.contains_key(q) {
                assert(expands_to(p, m[p], item, q));
                assert(tree(m[p].source).contains(q) || tree(item.source).contains(q));
            } else {
                assert(m.contains_key(q));
            }
        } else if q != p {
            assert(m.contains_key(q));
        }
    }
}

proof fn lemma_placed_all_within(
    m: Map<Seq<Part>, Item>,
    list: Seq<(Seq<Part>, Item)>,
    u: Set<Seq<Part>>,
)
    requires
        within(m, u),
        forall|i: int|
            0 <= i < list.len() ==> u.contains((#[trigger] list[i]).0) && tree(
                list[i].1.source,
            ).subset_of(u),
    ensures
        within(placed_all(m, list), u),
    decreases list.len(),
{
    if list.len() > 0 {
        let front = list.drop_last();
        assert forall|i: int| 0 <= i < front.len() implies u.contains((#[trigger] front[i]).0)
            && tree(front[i].1.source).subset_of(u) by {
            assert(front[i] == list[i]);
        }
        lemma_placed_all_within(m, front, u);
        assert(list.last() == list[list.len() - 1]);
        lemma_placed_within(placed_all(m, front), list.last().0, list.last().1, u);
    }
}

/// Placing changes nothing outside the subtree of the path.
proof fn lemma_placed_outside(m: Map<Seq<Part>, Item>, p: Seq<Part>, item: Item, q: Seq<Part>)
    requires
        !p.is_prefix_of(q),
    ensures
        placed(m, p, item).contains_key(q) == m.contains_key(q),
        m.contains_key(q) ==> placed(m, p, item)[q] == m[q],
{
    if p == q {
        assert(p =~= q.subrange(0, p.len() as int));
    }
    assert(!expands_to(p, m[p], item, q));
}

proof fn lemma_placed_all_outside(
    m: Map<Seq<Part>, Item>,
    list: Seq<(Seq<Part>, Item)>,
    q: Seq<Part>,
)
    requires
        forall|i: int| 0 <= i < list.len() ==> !(#[trigger] list[i]).0.is_prefix_of(q),
    ensures
        placed_all(m, list).contains_key(q) == m.contains_key(q),
        m.contains_key(q) ==> placed_all(m, list)[q] == m[q],
    decreases list.len(),
{
    if list.len() > 0 {
        let front = list.drop_last();
        assert forall|i: int| 0 <= i < front.len() implies !(#[trigger] front[i]).0.is_prefix_of(q) by {
            assert(front[i] == list[i]);
        }
        lemma_placed_all_outside(m, front, q);
        assert(list.last() == list[list.len() - 1]);
        lemma_placed_outside(placed_all(m, front), list.last().0, list.last().1, q);
    }
}

/// Replacing a sealed directory changes nothing outside of it, and takes it off the list.
proof fn lemma_unsealed_outside(m: Map<Seq<Part>, Item>, p: Seq<Part>, q: Seq<Part>)
    requires
        m.contains_key(p),
        !p.is_prefix_of(q) || q == p,
    ensures
        unsealed(m, p).contains_key(q) == (m.contains_key(q) && q != p),
        m.contains_key(q) && q != p ==> unsealed(m, p)[q] == m[q],
{
    let list = child_listing(m[p], p);
    assert forall|i: int| 0 <= i < list.len() implies !(#[trigger] list[i]).0.is_prefix_of(q) by {
        let n = child_names(m[p].source, p)[i];
        let below = p.push(Part::Normal(n));
        assert(list[i].0 == below);
        if below.is_prefix_of(q) {
            lemma_prefix_index(below, q);
            assert forall|k: int| 0 <= k < p.len() implies p[k] == q[k] by {
                assert(below[k] == q[k]);
            }
            lemma_prefix_from_index(p, q);
        }
    }
    lemma_placed_all_outside(m.remove(p), list, q);
}

/// After the first blocked directory is replaced, only later ones can be blocked.
proof fn lemma_next_blocked(m: Map<Seq<Part>, Item>, p: Seq<Part>, q: Seq<Part>)
    requires
        first_blocked(m, p),
        blocked(unsealed(m, p), q),
    ensures
        path::path_before(p, q),
{
    path::lemma_path_order();
    path::lemma_part_before();
    let after = unsealed(m, p);
    if p.is_prefix_of(q) && q != p {
        lemma_prefix_index(p, q);
        if p.len() == q.len() {
            assert(p =~= q);
        }
        order::lemma_lex_extension(p, q, path::part_before());
    } else {
        lemma_unsealed_outside(m, p, q);
        assert(q != p && m.contains_key(q) && after[q] == m[q]);
        let d = choose|d: Seq<Part>| #[trigger]
            after.contains_key(d) && q.is_prefix_of(d) && q != d;
        if p.is_prefix_of(d) && d != p {
            // `p` and `q` both begin `d`, so one of them begins the other.
            lemma_prefix_index(p, d);
            lemma_prefix_index(q, d);
            if q.len() <= p.len() {
                assert forall|i: int| 0 <= i < q.len() implies q[i] == p[i] by {
                    assert(q[i] == d[i] && p[i] == d[i]);
                }
                lemma_prefix_from_index(q, p);
                assert(blocked(m, q)) by {
                    assert(m.contains_key(p) && q.is_prefix_of(p) && q != p);
                }
            } else {
                assert forall|i: int| 0 <= i < p.len() implies p[i] == q[i] by {
                    assert(q[i] == d[i] && p[i] == d[i]);
                }
                lemma_prefix_from_index(p, q);
            }
        } else {
            lemma_unsealed_outside(m, p, d);
            assert(m.contains_key(d));
            assert(blocked(m, q));
        }
        assert(blocked(m, q));
    }
}

/// How many paths of `u` can still become blocked.
spec fn left_after(u: Set<Seq<Part>>, last: Option<Seq<Part>>) -> nat {
    match last {
        None => u.len() + 1,
        Some(p) => u.filter(|q: Seq<Part>| path::path_before(p, q)).len(),
    }
}

proof fn lemma_left_shrinks(u: Set<Seq<Part>>, last: Option<Seq<Part>>, p: Seq<Part>)
    requires
        u.finite(),
        u.contains(p),
        last matches Some(before) ==> path::path_before(before, p),
    ensures
        left_after(u, Some(p)) < left_after(u, last),
{
    path::lemma_path_order();
    let now = u.filter(|q: Seq<Part>| path::path_before(p, q));
    vstd::set_lib::lemma_len_subset(now, u);
    if let Some(before) = last {
        let earlier = u.filter(|q: Seq<Part>| path::path_before(before, q));
        vstd::set_lib::lemma_len_subset(earlier, u);
        assert(earlier.contains(p));
        assert(!now.contains(p));
        assert forall|q: Seq<Part>| now.contains(q) implies earlier.remove(p).contains(q) by {
            assert(path::path_before(p, q));
        }
        vstd::set_lib::lemma_len_subset(now, earlier.remove(p));
    }
}

spec fn sources_tree(items: Seq<FileItem>) -> Set<Seq<Part>>
    decreases items.len(),
{
    if items.len() == 0 {
        Set::empty()
    } else {
        sources_tree(items.drop_last()).union(tree(items.last()@.source))
    }
}

proof fn lemma_sources_tree(items: Seq<FileItem>)
    ensures
        sources_tree(items).finite(),
        forall|i: int|
            0 <= i < items.len() ==> tree((#[trigger] items[i])@.source).subset_of(
                sources_tree(items),
            ),
    decreases items.len(),
{
    if items.len() > 0 {
        lemma_sources_tree(items.drop_last());
        lemma_tree_finite(items.last()@.source);
        assert forall|i: int| 0 <= i < items.len() implies tree(
            (#[trigger] items[i])@.source,
        ).subset_of(sources_tree(items)) by {
            if i < items.len() - 1 {
                assert(items.drop_last()[i] == items[i]);
            }
        }
    }
}

proof fn lemma_universe(files: SortedMap<Path, FileItem>) -> (u: Set<Seq<Part>>)
    requires
        files.wf(),
    ensures
        u.finite(),
        within(files_map(files), u),
{
    let keys = files.keys();
    vstd::seq_lib::seq_to_set_is_finite(keys);
    lemma_sources_tree(files.values());
    let u = keys.to_set().union(sources_tree(files.values()));
    let m = files_map(files);
    assert forall|p: Seq<Part>| #[trigger] m.contains_key(p) implies u.contains(p) && tree(
        m[p].source,
    ).subset_of(u) by {
        let i = keys.index_of(p);
        assert(keys[i] == p);
        files.lemma_lengths();
        files.lemma_at(i);
    }
    u
}

/// Whether something below the path in position `i` is listed too.
fn has_descendant(files: &SortedMap<Path, FileItem>, i: usize) -> (found: bool)
    requires
        files.wf(),
        i < files.keys().len(),
    ensures
        found == exists|d: Seq<Part>| #[trigger]
            files_map(*files).contains_key(d) && files.keys()[i as int].is_prefix_of(d)
                && files.keys()[i as int] != d,
{
    let ghost keys = files.keys();
    let ghost m = files_map(*files);
    let ghost p = keys[i as int];
    let n: usize = files.len();
    if i + 1 < n {
        let next = files.key_at(i + 1);
        let found = next.starts_with(files.key_at(i));
        proof {
            path::lemma_path_order();
            path::lemma_part_before();
            assert(<Path as Key>::before(keys[i as int], keys[i + 1]));
            if found {
                files.lemma_at(i + 1);
                assert(m.contains_key(keys[i + 1]) && p.is_prefix_of(keys[i + 1]) && p != keys[i
                    + 1]);
            } else if exists|d: Seq<Part>| #[trigger]
                m.contains_key(d) && p.is_prefix_of(d) && p != d {
                let d = choose|d: Seq<Part>| #[trigger]
                    m.contains_key(d) && p.is_prefix_of(d) && p != d;
                lemma_listed_after(*files, i as int, d);
            }
        }
        found
    } else {
        proof {
            if exists|d: Seq<Part>| #[trigger]
                m.contains_key(d) && p.is_prefix_of(d) && p != d {
                let d = choose|d: Seq<Part>| #[trigger]
                    m.contains_key(d) && p.is_prefix_of(d) && p != d;
                lemma_listed_after(*files, i as int, d);
            }
        }
        false
    }
}

/// A listed path that extends the one in position `i` comes later, and so does the next, which
/// extends it too.
proof fn lemma_listed_after(files: SortedMap<Path, FileItem>, i: int, d: Seq<Part>)
    requires
        files.wf(),
        0 <= i < files.keys().len(),
        files.has(d),
        files.keys()[i].is_prefix_of(d),
        files.keys()[i] != d,
    ensures
        i + 1 < files.keys().len(),
        files.keys()[i].is_prefix_of(files.keys()[i + 1]),
{
    path::lemma_path_order();
    path::lemma_part_before();
    let keys = files.keys();
    let p = keys[i];
    lemma_prefix_index(p, d);
    if p.len() == d.len() {
        assert(p =~= d);
    }
    order::lemma_lex_extension(p, d, path::part_before());
    let j = keys.index_of(d);
    assert(keys[j] == d);
    if j <= i {
        assert(path::path_before(p, d));
        if j < i {
            assert(<Path as Key>::before(keys[j], keys[i]));
            assert(path::path_before(d, p));
        }
        assert(path::path_before(p, p));
    }
    assert(<Path as Key>::before(keys[i], keys[i + 1]));
    if i + 1 < j {
        assert(<Path as Key>::before(keys[i + 1], keys[j]));
    }
    order::lemma_lex_prefix(p, keys[i + 1], d, path::part_before());
}

/// Replaces sealed directories below which something is listed by what they hold, until there
/// are none.
pub fn normalize_sealed(files: &mut SortedMap<Path, FileItem>)
    requires
        files_wf(*old(files)),
    ensures
        files_wf(*final(files)),
        normal_form(files_map(*old(files)), files_map(*final(files))),
{
    let ghost start = files_map(*files);
    let ghost u = lemma_universe(*files);
    let ghost mut last: Option<Seq<Part>> = None;
    let ghost mut steps: nat = 0;
    loop
        invariant
            files_wf(*files),
            u.finite(),
            within(files_map(*files), u),
            files_map(*files) == unseal_steps(start, steps),
            last matches Some(p) ==> forall|q: Seq<Part>| #[trigger]
                blocked(files_map(*files), q) ==> path::path_before(p, q),
        ensures
            files_wf(*files),
            unblocked(files_map(*files)),
            files_map(*files) == unseal_steps(start, steps),
        decreases left_after(u, last),
    {
        let ghost m = files_map(*files);
        let n: usize = files.len();
        let mut i: usize = 0;
        let mut found: Option<Path> = None;
        while i < n && found.is_none()
            invariant
                i <= n,
                n == files.keys().len(),
                files_wf(*files),
                m == files_map(*files),
                match found {
                    None => forall|k: int| 0 <= k < i ==> !blocked(m, #[trigger] files.keys()[k]),
                    Some(p) => first_blocked(m, p@),
                },
            decreases n - i + (if found.is_none() {
                1int
            } else {
                0int
            }),
        {
            proof {
                files.lemma_at(i as int);
            }
            let directory = match files.value_at(i).kind() {
                FileKind::Directory => true,
                FileKind::File => false,
            };
            if directory && has_descendant(files, i) {
                let p = files.key_at(i).duplicated();
                proof {
                    assert(blocked(m, p@));
                    assert forall|q: Seq<Part>| #[trigger] blocked(m, q) implies q == p@
                        || path::path_before(p@, q) by {
                        let k = files.keys().index_of(q);
                        assert(files.keys()[k] == q);
                        if k > i {
                            assert(<Path as Key>::before(files.keys()[i as int], files.keys()[k]));
                        }
                    }
                }
                found = Some(p);
            } else {
                assert(!blocked(m, files.keys()[i as int]));
                i = i + 1;
            }
        }
        match found {
            None => {
                proof {
                    assert forall|q: Seq<Part>| !#[trigger] blocked(m, q) by {
                        if blocked(m, q) {
                            let k = files.keys().index_of(q);
                            assert(files.keys()[k] == q);
                        }
                    }
                }
                break;
            },
            Some(p) => {
                match take(files, &p) {
                    None => {
                        assert(false);
                    },
                    Some(sealed) => {
                        expand_sealed_into(files, &p, &sealed);
                    },
                }
                proof {
                    assert(files_map(*files) == unsealed(m, p@));
                    let chosen = choose|q: Seq<Part>| first_blocked(m, q);
                    assert(first_blocked(m, chosen));
                    lemma_first_blocked_unique(m, p@, chosen);
                    assert(unseal_steps(start, steps + 1) == unsealed(m, p@));
                    let list = child_listing(m[p@], p@);
                    assert forall|k: int| 0 <= k < list.len() implies u.contains(
                        (#[trigger] list[k]).0,
                    ) && tree(list[k].1.source).subset_of(u) by {
                        let name = child_names(m[p@].source, p@)[k];
                        assert(child_names(m[p@].source, p@).contains(name));
                        assert(has_child(m[p@].source, p@, name));
                        assert(list[k].0.drop_last() =~= p@);
                        assert(tree(m[p@].source).contains(list[k].0));
                    }
                    assert(within(m.remove(p@), u));
                    lemma_placed_all_within(m.remove(p@), list, u);
                    assert forall|q: Seq<Part>| #[trigger]
                        blocked(files_map(*files), q) implies path::path_before(p@, q) by {
                        lemma_next_blocked(m, p@, q);
                    }
                    lemma_left_shrinks(u, last, p@);
                    last = Some(p@);
                    steps = steps + 1;
                }
            },
        }
    }
    assert(unseal_steps(start, steps) == files_map(*files));
}

/// `done` is the merged listing of two packages: the entries of the second placed over the
/// first in path order, with blocked directories replaced.
pub open spec fn files_united(
    a: Map<Seq<Part>, Item>,
    list: Seq<(Seq<Part>, Item)>,
    done: Map<Seq<Part>, Item>,
) -> bool {
    normal_form(placed_all(a, list), done)
}

/// Merges the listings of two packages.
pub fn union_files(files: SortedMap<Path, FileItem>, rfiles: SortedMap<Path, FileItem>) -> (merged:
    SortedMap<Path, FileItem>)
    requires
        files_wf(files),
        files_wf(rfiles),
    ensures
        files_wf(merged),
        files_united(files_map(files), listing(rfiles), files_map(merged)),
{
    let ghost a = files_map(files);
    let ghost given = rfiles;
    let ghost list = listing(rfiles);
    let ghost raw = rfiles.entries@;
    let mut merged = files;
    let entries = rfiles.entries;
    proof {
        order::lemma_fields(given);
        assert(list.take(0) =~= Seq::<(Seq<Part>, Item)>::empty());
    }
    for pair in it: entries
        invariant
            it.seq() == raw,
            raw == given.entries@,
            given.wf(),
            files_wf(given),
            list == listing(given),
            given.keys() == raw.map_values(|e: (Path, FileItem)| e.0.model()),
            given.values() == raw.map_values(|e: (Path, FileItem)| e.1),
            files_wf(merged),
            files_map(merged) == placed_all(a, list.take(it.index() as int)),
    {
        let ghost n = it.index() as int;
        let (p, item) = pair;
        proof {
            given.lemma_at(n);
            assert(raw[n] == pair);
            assert(list[n] == (p@, item@));
            assert(list.take(n + 1).drop_last() =~= list.take(n));
            assert(list.take(n + 1).last() == list[n]);
        }
        place(&mut merged, p, item);
    }
    assert(list.take(list.len() as int) =~= list);
    normalize_sealed(&mut merged);
    merged
}

} // verus!
