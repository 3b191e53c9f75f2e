//! Inventories of immutable snapshot trees.
//!
//! A manifest lists the entries of a snapshot in path order.  Indexes derived from the list
//! answer what kind an entry is and what a directory holds without touching the file system.

use crate::names;
use crate::names::PathIndex;
use crate::order;
use crate::order::{Key, Order, SortedSet};
use crate::path;
use crate::path::{Component, Part, Path};
use vstd::prelude::*;

pub mod laws;
pub mod tree;

verus! {

/// The name of the manifest file at the root of a snapshot.
pub const MANIFEST_FILE: &'static str = ".rsplug-manifest-v1.json";

/// The version of the manifest's meaning.
pub const MANIFEST_SCHEMA: u32 = 1;

/// The kind of an entry.
#[derive(Clone, Copy, Debug, PartialEq, Eq, Structural)]
pub enum ManifestKind {
    File,
    Dir,
    Symlink,
}

/// An entry of a snapshot tree.
#[derive(Debug)]
pub struct ManifestEntry {
    /// Path from the root of the snapshot.
    pub path: Path,
    pub kind: ManifestKind,
    /// Where a symbolic link points.
    pub symlink_target: Option<Path>,
    /// The kind of what a symbolic link points to, if that exists.
    pub followed_kind: Option<ManifestKind>,
}

/// What an entry is, mathematically.
pub struct Entry {
    pub path: Seq<Part>,
    pub kind: ManifestKind,
    pub symlink_target: Option<Seq<Part>>,
    pub followed_kind: Option<ManifestKind>,
}

impl View for ManifestEntry {
    type V = Entry;

    open spec fn view(&self) -> Entry {
        Entry {
            path: self.path@,
            kind: self.kind,
            symlink_target: match self.symlink_target {
                Some(target) => Some(target@),
                None => None,
            },
            followed_kind: self.followed_kind,
        }
    }
}

/// The entries of a list.
pub open spec fn entry_models(list: Seq<ManifestEntry>) -> Seq<Entry> {
    list.map_values(|e: ManifestEntry| e@)
}

/// The path with `.` and `..` resolved; nothing if that leaves the tree or the path is not
/// relative.
pub open spec fn resolve_dots(p: Seq<Part>) -> Option<Seq<Part>>
    decreases p.len(),
{
    if p.len() == 0 {
        Some(Seq::empty())
    } else {
        match resolve_dots(p.drop_last()) {
            None => None,
            Some(done) => match p.last() {
                Part::Normal(name) => Some(done.push(Part::Normal(name))),
                Part::Cur => Some(done),
                Part::Parent => if done.len() == 0 {
                    None
                } else {
                    Some(done.drop_last())
                },
                Part::Root => None,
            },
        }
    }
}

/// Where `target`, seen from `parent`, lies inside the tree; nothing outside it or at its root.
pub open spec fn normalized(parent: Seq<Part>, target: Seq<Part>) -> Option<Seq<Part>> {
    if path::absolute(target) {
        None
    } else {
        match resolve_dots(parent + target) {
            Some(done) => if done.len() > 0 {
                Some(done)
            } else {
                None
            },
            None => None,
        }
    }
}

/// A resolved link target lies inside the tree and has names only.
pub proof fn law_normalized_is_plain(parent: Seq<Part>, target: Seq<Part>)
    ensures
        normalized(parent, target) matches Some(p) ==> p.len() > 0 && path::plain(p),
{
    lemma_resolve_plain(parent + target);
}

proof fn lemma_resolve_plain(p: Seq<Part>)
    ensures
        resolve_dots(p) matches Some(done) ==> path::plain(done),
    decreases p.len(),
{
    if p.len() > 0 {
        lemma_resolve_plain(p.drop_last());
    }
}

/// Where `target`, seen from `parent`, lies inside the tree.
pub fn normalize_relative_path(parent: &Path, target: &Path) -> (found: Option<Path>)
    ensures
        match found {
            Some(p) => normalized(parent@, target@) == Some(p@),
            None => normalized(parent@, target@) is None,
        },
{
    if target.is_absolute() {
        return None;
    }
    let joined = parent.join(target);
    let mut result = Path::empty();
    let mut i: usize = 0;
    assert(joined@.take(0) =~= Seq::<Part>::empty());
    while i < joined.parts.len()
        invariant
            i <= joined.parts@.len(),
            joined@ == parent@ + target@,
            resolve_dots(joined@.take(i as int)) == Some(result@),
        decreases joined.parts@.len() - i,
    {
        proof {
            assert(joined@.take(i as int + 1).drop_last() =~= joined@.take(i as int));
            assert(joined@.take(i as int + 1).last() == joined.parts@[i as int]@);
        }
        let ghost before = result.parts@;
        match &joined.parts[i] {
            Component::Normal(name) => {
                result.parts.push(Component::Normal(name.clone()));
                assert(result@ =~= path::parts(before).push(Part::Normal(name@)));
            },
            Component::Cur => {},
            Component::Parent => {
                if result.parts.len() == 0 {
                    proof {
                        lemma_resolve_prefix(joined@, i as int + 1);
                    }
                    return None;
                }
                result.parts.pop();
                assert(result@ =~= path::parts(before).drop_last());
            },
            Component::Root => {
                proof {
                    lemma_resolve_prefix(joined@, i as int + 1);
                }
                return None;
            },
        }
        i = i + 1;
    }
    assert(joined@.take(i as int) =~= joined@);
    if result.parts.len() > 0 {
        Some(result)
    } else {
        None
    }
}

proof fn lemma_resolve_prefix(p: Seq<Part>, n: int)
    requires
        0 <= n <= p.len(),
        resolve_dots(p.take(n)) is None,
    ensures
        resolve_dots(p) is None,
    decreases p.len(),
{
    if n == p.len() {
        assert(p.take(n) =~= p);
    } else {
        assert(p.drop_last().take(n) =~= p.take(n));
        lemma_resolve_prefix(p.drop_last(), n);
    }
}

/// A component as a tag and a text.
pub open spec fn part_code(p: Part) -> (u8, Seq<char>) {
    match p {
        Part::Root => (0u8, Seq::empty()),
        Part::Cur => (1u8, Seq::empty()),
        Part::Parent => (2u8, Seq::empty()),
        Part::Normal(name) => (3u8, name),
    }
}

/// A path as tags and texts.
pub open spec fn path_code(p: Seq<Part>) -> Seq<(u8, Seq<char>)> {
    p.map_values(|c: Part| part_code(c))
}

/// Different paths have different codes.
pub proof fn lemma_path_code(p: Seq<Part>, q: Seq<Part>)
    requires
        path_code(p) == path_code(q),
    ensures
        p == q,
{
    assert(path_code(p).len() == p.len());
    assert(path_code(q).len() == q.len());
    assert forall|i: int| 0 <= i < p.len() implies p[i] == q[i] by {
        assert(path_code(p)[i] == part_code(p[i]));
        assert(path_code(q)[i] == part_code(q[i]));
    }
    assert(p =~= q);
}

pub(crate) fn code_of(p: &Path) -> (code: Vec<(u8, String)>)
    ensures
        names::coded(code@) == path_code(p@),
{
    let mut code: Vec<(u8, String)> = Vec::new();
    let ghost wanted = path_code(p@);
    let mut i: usize = 0;
    while i < p.parts.len()
        invariant
            i <= p.parts@.len(),
            wanted == path_code(p@),
            names::coded(code@) == wanted.take(i as int),
        decreases p.parts@.len() - i,
    {
        let ghost before = code@;
        let next: (u8, String) = match &p.parts[i] {
            Component::Root => (0, String::new()),
            Component::Cur => (1, String::new()),
            Component::Parent => (2, String::new()),
            Component::Normal(name) => (3, name.clone()),
        };
        proof {
            assert(wanted[i as int] == part_code(p.parts@[i as int]@));
            assert((next.0, next.1@) == wanted[i as int]);
        }
        code.push(next);
        assert(names::coded(code@) =~= names::coded(before).push(wanted[i as int]));
        assert(wanted.take(i as int + 1) =~= wanted.take(i as int).push(wanted[i as int]));
        i = i + 1;
    }
    assert(wanted.take(i as int) =~= wanted);
    code
}

/// The names below each path.
struct ChildTable {
    index: PathIndex,
    sets: Vec<SortedSet<String>>,
}

impl ChildTable {
    spec fn slot(&self, p: Seq<Part>) -> Option<int> {
        if names::path_index_contents(self.index).contains_key(path_code(p)) {
            Some(names::path_index_contents(self.index)[path_code(p)] as int)
        } else {
            None
        }
    }

    /// `name` stands below `p`.
    spec fn has(&self, p: Seq<Part>, name: Seq<char>) -> bool {
        self.slot(p) matches Some(i) && self.sets@[i].has(name)
    }

    spec fn wf(&self) -> bool {
        &&& forall|p: Seq<Part>|
            #![trigger self.slot(p)]
            self.slot(p) matches Some(i) ==> 0 <= i < self.sets@.len()
        &&& forall|p: Seq<Part>, q: Seq<Part>|
            #![trigger self.slot(p), self.slot(q)]
            self.slot(p) is Some && self.slot(p) == self.slot(q) ==> p == q
        &&& forall|i: int| 0 <= i < self.sets@.len() ==> (#[trigger] self.sets@[i]).wf()
    }

    fn new() -> (table: ChildTable)
        ensures
            table.wf(),
            forall|p: Seq<Part>, name: Seq<char>| !#[trigger] table.has(p, name),
    {
        let table = ChildTable { index: PathIndex::new(), sets: Vec::new() };
        assert(forall|p: Seq<Part>| (#[trigger] table.slot(p)) is None);
        table
    }

    fn insert(&mut self, parent: &Path, name: String)
        requires
            old(self).wf(),
        ensures
            final(self).wf(),
            forall|p: Seq<Part>, n: Seq<char>| #[trigger]
                final(self).has(p, n) <==> old(self).has(p, n) || (p == parent@ && n == name@),
    {
        let ghost before = *self;
        let ghost m = name@;
        let code = code_of(parent);
        let found = self.index.get(&code);
        assert(before.slot(parent@) == (match found {
            Some(i) => Some(i as int),
            None => None,
        }));
        match found {
            Some(i) => {
                self.sets[i].insert(name);
                proof {
                    assert(forall|p: Seq<Part>| #[trigger] self.slot(p) == before.slot(p));
                    assert forall|p: Seq<Part>, n: Seq<char>| #[trigger]
                        self.has(p, n) <==> before.has(p, n) || (p == parent@ && n == m) by {
                        if p != parent@ {
                            assert(before.slot(p) != before.slot(parent@) || before.slot(p) is None);
                        }
                    }
                }
            },
            None => {
                let mut set: SortedSet<String> = SortedSet::new();
                set.insert(name);
                let at: usize = self.sets.len();
                self.index.insert(code, at);
                self.sets.push(set);
                proof {
                    assert forall|p: Seq<Part>| #[trigger] self.slot(p) == (if p == parent@ {
                        Some(at as int)
                    } else {
                        before.slot(p)
                    }) by {
                        if p != parent@ {
                            if path_code(p) == path_code(parent@) {
                                lemma_path_code(p, parent@);
                            }
                        }
                    }
                    assert forall|p: Seq<Part>, n: Seq<char>| #[trigger]
                        self.has(p, n) <==> before.has(p, n) || (p == parent@ && n == m) by {
                        if p != parent@ && before.slot(p) is Some {
                            assert(self.sets@[before.slot(p)->0] == before.sets@[before.slot(
                                p,
                            )->0]);
                        }
                    }
                }
            },
        }
    }

    /// The names below `parent`.
    fn names_below(&self, parent: &Path) -> (set: SortedSet<String>)
        requires
            self.wf(),
        ensures
            set.wf(),
            forall|n: Seq<char>| #[trigger] set.has(n) <==> self.has(parent@, n),
    {
        let code = code_of(parent);
        let mut set: SortedSet<String> = SortedSet::new();
        let found = self.index.get(&code);
        assert(self.slot(parent@) == (match found {
            Some(i) => Some(i as int),
            None => None,
        }));
        match found {
            None => set,
            Some(i) => {
                let source = &self.sets[i];
                let ghost all = source.members();
                let mut k: usize = 0;
                assert(all.take(0) =~= Seq::<Seq<char>>::empty());
                while k < source.len()
                    invariant
                        k <= all.len(),
                        all == source.members(),
                        set.wf(),
                        forall|n: Seq<char>| #[trigger]
                            set.has(n) <==> all.take(k as int).contains(n),
                    decreases all.len() - k,
                {
                    let ghost before = set;
                    set.insert(source.at(k).clone());
                    proof {
                        assert(all.take(k as int + 1) =~= all.take(k as int).push(all[k as int]));
                        assert forall|n: Seq<char>| #[trigger]
                            set.has(n) <==> all.take(k as int + 1).contains(n) by {
                            order::lemma_contains_push(all.take(k as int), all[k as int], n);
                            assert(before.has(n) <==> all.take(k as int).contains(n));
                        }
                    }
                    k = k + 1;
                }
                assert(all.take(k as int) =~= all);
                set
            },
        }
    }
}

/// An entry with this name stands directly below `parent`.
pub open spec fn entry_below(es: Seq<Entry>, parent: Seq<Part>, name: Seq<char>) -> bool {
    exists|i: int| 0 <= i < es.len() && (#[trigger] es[i]).path == parent.push(Part::Normal(name))
}

/// Where a link to a directory leads inside the tree.
pub open spec fn link_target(link: Entry) -> Option<Seq<Part>> {
    if link.kind == ManifestKind::Symlink && link.followed_kind == Some(ManifestKind::Dir) {
        match link.symlink_target {
            Some(target) => normalized(
                match path::parent_path(link.path) {
                    Some(parent) => parent,
                    None => Seq::empty(),
                },
                target,
            ),
            None => None,
        }
    } else {
        None
    }
}

/// The path under which entry `t` is visible through link `l`.
pub open spec fn overlay(es: Seq<Entry>, l: int, t: int) -> Option<Seq<Part>> {
    match link_target(es[l]) {
        Some(target) => {
            let seen = path::joined_path(es[l].path, es[t].path.skip(target.len() as int));
            if target.is_prefix_of(es[t].path) && target.len() < es[t].path.len() && seen
                != es[l].path {
                Some(seen)
            } else {
                None
            }
        },
        None => None,
    }
}

/// Link `l` shows entry `t` at `q`.
pub open spec fn shows(es: Seq<Entry>, l: int, t: int, q: Seq<Part>) -> bool {
    0 <= l < es.len() && 0 <= t < es.len() && overlay(es, l, t) == Some(q)
}

/// Some link shows an entry at `q`.
pub open spec fn shown(es: Seq<Entry>, q: Seq<Part>) -> bool {
    exists|l: int, t: int| shows(es, l, t, q)
}

/// `(l, t)` is the first pair that shows an entry at `q`.
pub open spec fn first_shows(es: Seq<Entry>, l: int, t: int, q: Seq<Part>) -> bool {
    shows(es, l, t, q) && forall|l1: int, t1: int|
        l1 < l || (l1 == l && t1 < t) ==> !#[trigger] shows(es, l1, t1, q)
}

/// The kind of the first entry that links show at `q`.
pub open spec fn overlay_kind(es: Seq<Entry>, q: Seq<Part>) -> Option<ManifestKind> {
    if exists|l: int, t: int| #[trigger] first_shows(es, l, t, q) {
        let (l, t) = choose|l: int, t: int| #[trigger] first_shows(es, l, t, q);
        Some(es[t].kind)
    } else {
        None
    }
}

/// Links show something with this name directly below `parent`.
pub open spec fn shown_below(es: Seq<Entry>, parent: Seq<Part>, name: Seq<char>) -> bool {
    shown(es, parent.push(Part::Normal(name)))
}

/// The paths ascend strictly.
pub open spec fn ordered(es: Seq<Entry>) -> bool {
    forall|i: int, j: int|
        0 <= i < j < es.len() ==> path::path_before((#[trigger] es[i]).path, (#[trigger] es[j]).path)
}

/// `i` is the position of the entry with the path.
pub open spec fn entry_at(es: Seq<Entry>, p: Seq<Part>, i: int) -> bool {
    0 <= i < es.len() && es[i].path == p
}

/// The kind of what stands at a path: an entry's own kind, or that of what links show there.
pub open spec fn kind_at(es: Seq<Entry>, p: Seq<Part>) -> Option<ManifestKind> {
    if exists|i: int| entry_at(es, p, i) {
        Some(es[choose|i: int| entry_at(es, p, i)].kind)
    } else {
        overlay_kind(es, p)
    }
}

/// The kind of what an entry leads to, where that was recorded.
pub open spec fn followed_at(es: Seq<Entry>, p: Seq<Part>) -> Option<ManifestKind> {
    if exists|i: int| entry_at(es, p, i) {
        es[choose|i: int| entry_at(es, p, i)].followed_kind
    } else {
        None
    }
}

/// A name is visible below a path: of a directory its entries and what links show below it, of a
/// link what it shows.
pub open spec fn child_at(es: Seq<Entry>, parent: Seq<Part>, name: Seq<char>) -> bool {
    match kind_at(es, parent) {
        Some(ManifestKind::Dir) => entry_below(es, parent, name) || shown_below(es, parent, name),
        Some(ManifestKind::Symlink) => shown_below(es, parent, name),
        _ => false,
    }
}

/// The first components of the entries, without immediate repetitions.
pub open spec fn first_components(es: Seq<Entry>) -> Seq<Seq<Part>>
    decreases es.len(),
{
    if es.len() == 0 {
        Seq::empty()
    } else {
        let before = first_components(es.drop_last());
        let p = es.last().path;
        if p.len() == 0 || (before.len() > 0 && before.last() == p.take(1)) {
            before
        } else {
            before.push(p.take(1))
        }
    }
}

/// The entries at or below `dir` that are no directories.
pub open spec fn leaves_below(es: Seq<Entry>, dir: Seq<char>) -> Seq<Seq<Part>>
    decreases es.len(),
{
    if es.len() == 0 {
        Seq::empty()
    } else {
        let before = leaves_below(es.drop_last(), dir);
        if seq![Part::Normal(dir)].is_prefix_of(es.last().path) && es.last().kind
            != ManifestKind::Dir {
            before.push(es.last().path)
        } else {
            before
        }
    }
}

/// The Lua module root that an entry makes available: the component below `lua`.  A directory is
/// a root under its whole name; only a file directly in `lua` loses its suffix.
pub open spec fn lua_root(e: Entry) -> Option<Seq<char>> {
    if seq![Part::Normal("lua"@)].is_prefix_of(e.path) && e.path.len() > 1 {
        let whole = e.kind == ManifestKind::Dir || e.path.len() > 2;
        let root = match e.path[1] {
            Part::Normal(name) => if whole {
                name
            } else {
                path::stem_of(name)
            },
            other => if whole && !(other is Root) {
                path::part_text(other)
            } else if whole {
                "/"@
            } else {
                Seq::empty()
            },
        };
        if root.len() > 0 {
            Some(root)
        } else {
            None
        }
    } else {
        None
    }
}

/// An entry makes the Lua module root available.
pub open spec fn has_lua_root(es: Seq<Entry>, root: Seq<char>) -> bool {
    exists|i: int| 0 <= i < es.len() && lua_root(#[trigger] es[i]) == Some(root)
}

/// What a persisted manifest must meet before it may answer queries.
pub open spec fn valid_entries(es: Seq<Entry>) -> bool {
    &&& ordered(es)
    &&& forall|i: int|
        0 <= i < es.len() ==> (#[trigger] es[i]).path.len() > 0 && path::plain(es[i].path)
}

/// Answers derived from the entries of a manifest.
pub struct ManifestIndex {
    children: ChildTable,
    overlay_entries: PathIndex,
    overlay_children: ChildTable,
    top_level: Vec<Path>,
    lua_roots: SortedSet<String>,
    doc_files: Vec<Path>,
    ftplugin_files: Vec<Path>,
}

/// The inventory of a snapshot.
pub struct SnapshotManifest {
    pub schema: u32,
    pub entries: Vec<ManifestEntry>,
    /// The digest of the contents, where it was taken.
    pub content_digest: Option<u128>,
    pub index: ManifestIndex,
}

/// The paths of a list.
pub open spec fn path_models(list: Seq<Path>) -> Seq<Seq<Part>> {
    list.map_values(|p: Path| p@)
}

/// The names of both sets.
fn both_names(names: SortedSet<String>, more: SortedSet<String>) -> (all: SortedSet<String>)
    requires
        names.wf(),
        more.wf(),
    ensures
        all.wf(),
        forall|n: Seq<char>| #[trigger] all.has(n) <==> names.has(n) || more.has(n),
{
    let ghost given = more.members();
    let mut all = names;
    let mut k: usize = 0;
    assert(given.take(0) =~= Seq::<Seq<char>>::empty());
    while k < more.len()
        invariant
            k <= given.len(),
            given == more.members(),
            all.wf(),
            forall|n: Seq<char>| #[trigger]
                all.has(n) <==> names.has(n) || given.take(k as int).contains(n),
        decreases given.len() - k,
    {
        let ghost before = all;
        all.insert(more.at(k).clone());
        proof {
            let now = given.take(k as int);
            assert(given.take(k as int + 1) =~= now.push(given[k as int]));
            assert forall|n: Seq<char>| #[trigger]
                all.has(n) <==> names.has(n) || given.take(k as int + 1).contains(n) by {
                order::lemma_contains_push(now, given[k as int], n);
                assert(before.has(n) <==> names.has(n) || now.contains(n));
            }
        }
        k = k + 1;
    }
    assert(given.take(k as int) =~= given);
    all
}

impl ManifestIndex {
    /// The first components that it tells.
    pub closed spec fn tops(&self) -> Seq<Seq<Part>> {
        path_models(self.top_level@)
    }

    /// The Lua module roots that it tells, in order.
    pub closed spec fn roots(&self) -> Seq<Seq<char>> {
        self.lua_roots.members()
    }

    /// The files of the documentation that it tells.
    pub closed spec fn docs(&self) -> Seq<Seq<Part>> {
        path_models(self.doc_files@)
    }

    /// The file type plugins that it tells.
    pub closed spec fn ftplugins(&self) -> Seq<Seq<Part>> {
        path_models(self.ftplugin_files@)
    }

    /// The index answers for the entries.
    pub closed spec fn answers(&self, es: Seq<Entry>) -> bool {
        &&& self.children.wf()
        &&& self.overlay_children.wf()
        &&& self.lua_roots.wf()
        &&& forall|p: Seq<Part>, n: Seq<char>| #[trigger]
            self.children.has(p, n) <==> entry_below(es, p, n)
        &&& forall|p: Seq<Part>, n: Seq<char>| #[trigger]
            self.overlay_children.has(p, n) <==> shown_below(es, p, n)
        &&& overlay_indexed(es, self.overlay_entries, es.len() as int, 0)
        &&& forall|r: Seq<char>| #[trigger] self.lua_roots.has(r) <==> has_lua_root(es, r)
        &&& order::sorted_from::<Path>(path_models(self.top_level@), first_components(es))
        &&& order::sorted_from::<Path>(path_models(self.doc_files@), leaves_below(es, "doc"@))
        &&& order::sorted_from::<Path>(
            path_models(self.ftplugin_files@),
            leaves_below(es, "ftplugin"@),
        )
    }
}

impl SnapshotManifest {
    /// The entries.
    pub open spec fn es(&self) -> Seq<Entry> {
        entry_models(self.entries@)
    }

    /// The index answers for the entries.
    pub open spec fn indexed(&self) -> bool {
        self.index.answers(self.es())
    }
}

/// The index holds, for each path shown by a pair before `(l, t)`, the entry of the first.
spec fn overlay_indexed(es: Seq<Entry>, index: PathIndex, l: int, t: int) -> bool {
    forall|q: Seq<Part>| #[trigger] overlay_indexed_at(es, index, l, t, q)
}

spec fn overlay_indexed_at(es: Seq<Entry>, index: PathIndex, l: int, t: int, q: Seq<Part>) -> bool {
    let held = names::path_index_contents(index);
    if held.contains_key(path_code(q)) {
        exists|l1: int| first_shows(es, l1, held[path_code(q)] as int, q)
    } else {
        forall|l1: int, t1: int|
            l1 < l || (l1 == l && t1 < t) ==> !#[trigger] shows(es, l1, t1, q)
    }
}

proof fn lemma_first_shows_unique(es: Seq<Entry>, q: Seq<Part>, l: int, t: int)
    requires
        first_shows(es, l, t, q),
    ensures
        overlay_kind(es, q) == Some(es[t].kind),
{
    let (l1, t1) = choose|l1: int, t1: int| #[trigger] first_shows(es, l1, t1, q);
    assert(first_shows(es, l1, t1, q));
    assert(shows(es, l1, t1, q) && shows(es, l, t, q));
    assert(l == l1 && t == t1);
}

proof fn lemma_not_shown(es: Seq<Entry>, q: Seq<Part>)
    requires
        forall|l: int, t: int| !#[trigger] shows(es, l, t, q),
    ensures
        overlay_kind(es, q) is None,
{
    if exists|l: int, t: int| #[trigger] first_shows(es, l, t, q) {
        let (l, t) = choose|l: int, t: int| #[trigger] first_shows(es, l, t, q);
        assert(shows(es, l, t, q));
    }
}

/// The names directly below each directory.
fn index_children(entries: &Vec<ManifestEntry>) -> (table: ChildTable)
    ensures
        table.wf(),
        forall|p: Seq<Part>, n: Seq<char>| #[trigger]
            table.has(p, n) <==> entry_below(entry_models(entries@), p, n),
{
    let ghost es = entry_models(entries@);
    let mut table = ChildTable::new();
    let mut i: usize = 0;
    while i < entries.len()
        invariant
            i <= entries@.len(),
            es == entry_models(entries@),
            table.wf(),
            forall|p: Seq<Part>, n: Seq<char>| #[trigger]
                table.has(p, n) <==> exists|j: int|
                    0 <= j < i && (#[trigger] es[j]).path == p.push(Part::Normal(n)),
        decreases entries@.len() - i,
    {
        let entry = &entries[i];
        let ghost before = table;
        let ghost own = es[i as int].path;
        assert(own == entry.path@);
        match (entry.path.parent(), entry.path.file_name()) {
            (Some(parent), Some(name)) => {
                table.insert(&parent, name.clone());
                proof {
                    assert(own =~= parent@.push(Part::Normal(name@)));
                    assert forall|p: Seq<Part>, n: Seq<char>| #[trigger]
                        table.has(p, n) <==> exists|j: int|
                            0 <= j < i + 1 && (#[trigger] es[j]).path == p.push(Part::Normal(n)) by {
                        lemma_push_same(parent@, Part::Normal(name@), p, Part::Normal(n));
                        assert(before.has(p, n) <==> exists|j: int|
                            0 <= j < i && (#[trigger] es[j]).path == p.push(Part::Normal(n)));
                        if p == parent@ && n == name@ {
                            assert(es[i as int].path == p.push(Part::Normal(n)));
                        }
                    }
                }
            },
            _ => {
                proof {
                    assert forall|p: Seq<Part>, n: Seq<char>| own != #[trigger] p.push(Part::Normal(n)) by {
                        assert(p.push(Part::Normal(n)).last() is Normal);
                    }
                }
            },
        }
        i = i + 1;
    }
    table
}

proof fn lemma_push_same(p: Seq<Part>, a: Part, q: Seq<Part>, b: Part)
    ensures
        p.push(a) == q.push(b) <==> p == q && a == b,
{
    if p.push(a) == q.push(b) {
        assert(p.push(a).last() == a && q.push(b).last() == b);
        assert(p.push(a).drop_last() =~= p);
        assert(q.push(b).drop_last() =~= q);
    }
}

/// The first components, sorted.
fn top_level_of(entries: &Vec<ManifestEntry>) -> (list: Vec<Path>)
    ensures
        order::sorted_from::<Path>(
            path_models(list@),
            first_components(entry_models(entries@)),
        ),
{
    let ghost es = entry_models(entries@);
    let mut list: Vec<Path> = Vec::new();
    let mut i: usize = 0;
    assert(es.take(0) =~= Seq::<Entry>::empty());
    assert(path_models(list@) =~= Seq::<Seq<Part>>::empty());
    while i < entries.len()
        invariant
            i <= entries@.len(),
            es == entry_models(entries@),
            path_models(list@) == first_components(es.take(i as int)),
        decreases entries@.len() - i,
    {
        proof {
            assert(es.take(i as int + 1).drop_last() =~= es.take(i as int));
            assert(es.take(i as int + 1).last() == entries@[i as int]@);
        }
        let p = &entries[i].path;
        if p.parts.len() > 0 {
            let first = p.range(0, 1);
            assert(first@ =~= p@.take(1));
            let n: usize = list.len();
            let repeated = if n > 0 {
                assert(path_models(list@).last() == list@[n - 1]@);
                list[n - 1].same(&first)
            } else {
                false
            };
            if !repeated {
                let ghost before = list@;
                list.push(first);
                assert(path_models(list@) =~= path_models(before).push(first@));
            }
        }
        i = i + 1;
    }
    assert(es.take(i as int) =~= es);
    let ghost unsorted = list@;
    let sorted = order::sort_keys(list);
    proof {
        assert(order::models::<Path>(sorted@) =~= path_models(sorted@));
        assert(order::models::<Path>(unsorted) =~= path_models(unsorted));
    }
    sorted
}

/// The leaves at or below a directory, sorted.
fn leaves_of(entries: &Vec<ManifestEntry>, dir: &str) -> (list: Vec<Path>)
    ensures
        order::sorted_from::<Path>(
            path_models(list@),
            leaves_below(entry_models(entries@), dir@),
        ),
{
    let ghost es = entry_models(entries@);
    let prefix = Path::empty().child(dir);
    assert(prefix@ =~= seq![Part::Normal(dir@)]);
    let mut list: Vec<Path> = Vec::new();
    let mut i: usize = 0;
    assert(es.take(0) =~= Seq::<Entry>::empty());
    assert(path_models(list@) =~= Seq::<Seq<Part>>::empty());
    while i < entries.len()
        invariant
            i <= entries@.len(),
            es == entry_models(entries@),
            prefix@ == seq![Part::Normal(dir@)],
            path_models(list@) == leaves_below(es.take(i as int), dir@),
        decreases entries@.len() - i,
    {
        proof {
            assert(es.take(i as int + 1).drop_last() =~= es.take(i as int));
            assert(es.take(i as int + 1).last() == entries@[i as int]@);
        }
        let entry = &entries[i];
        if entry.path.starts_with(&prefix) && entry.kind != ManifestKind::Dir {
            let ghost before = list@;
            list.push(entry.path.duplicated());
            assert(path_models(list@) =~= path_models(before).push(entry.path@));
        }
        i = i + 1;
    }
    assert(es.take(i as int) =~= es);
    let ghost unsorted = list@;
    let sorted = order::sort_keys(list);
    proof {
        assert(order::models::<Path>(sorted@) =~= path_models(sorted@));
        assert(order::models::<Path>(unsorted) =~= path_models(unsorted));
    }
    sorted
}

/// The Lua module root of an entry.
fn lua_root_of(entry: &ManifestEntry) -> (found: Option<String>)
    ensures
        crate::text::optional_string(found) == lua_root(entry@),
{
    let prefix = Path::empty().child("lua");
    assert(prefix@ =~= seq![Part::Normal("lua"@)]);
    if !entry.path.starts_with(&prefix) || entry.path.parts.len() <= 1 {
        return None;
    }
    assert(entry.path@[1] == entry.path.parts@[1]@);
    let whole = match entry.kind {
        ManifestKind::Dir => true,
        _ => entry.path.parts.len() > 2,
    };
    let root = match (&entry.path.parts[1], whole) {
        (Component::Normal(name), true) => name.clone(),
        (Component::Normal(name), false) => path::file_stem(name.as_str()),
        (Component::Root, true) => String::from_str("/"),
        (Component::Cur, true) => String::from_str("."),
        (Component::Parent, true) => String::from_str(".."),
        _ => String::new(),
    };
    if root.as_str().is_empty() {
        None
    } else {
        Some(root)
    }
}

/// The Lua module roots of all entries.
fn lua_roots_of(entries: &Vec<ManifestEntry>) -> (roots: SortedSet<String>)
    ensures
        roots.wf(),
        forall|r: Seq<char>| #[trigger]
            roots.has(r) <==> has_lua_root(entry_models(entries@), r),
{
    let ghost es = entry_models(entries@);
    let mut roots: SortedSet<String> = SortedSet::new();
    let mut i: usize = 0;
    while i < entries.len()
        invariant
            i <= entries@.len(),
            es == entry_models(entries@),
            roots.wf(),
            forall|r: Seq<char>| #[trigger]
                roots.has(r) <==> exists|j: int| 0 <= j < i && lua_root(#[trigger] es[j]) == Some(r),
        decreases entries@.len() - i,
    {
        let ghost before = roots;
        assert(es[i as int] == entries@[i as int]@);
        if let Some(root) = lua_root_of(&entries[i]) {
            roots.insert(root);
            proof {
                assert forall|r: Seq<char>| #[trigger]
                    roots.has(r) <==> exists|j: int|
                        0 <= j < i + 1 && lua_root(#[trigger] es[j]) == Some(r) by {
                    assert(before.has(r) <==> exists|j: int|
                        0 <= j < i && lua_root(#[trigger] es[j]) == Some(r));
                    if r == root@ {
                        assert(lua_root(es[i as int]) == Some(r));
                    }
                }
            }
        }
        i = i + 1;
    }
    roots
}

/// Where a link to a directory leads inside the tree.
fn link_target_of(entry: &ManifestEntry) -> (found: Option<Path>)
    ensures
        match found {
            Some(p) => link_target(entry@) == Some(p@),
            None => link_target(entry@) is None,
        },
{
    if entry.kind != ManifestKind::Symlink {
        return None;
    }
    match entry.followed_kind {
        Some(ManifestKind::Dir) => {},
        _ => {
            return None;
        },
    }
    match &entry.symlink_target {
        Some(target) => {
            let parent = match entry.path.parent() {
                Some(parent) => parent,
                None => Path::empty(),
            };
            normalize_relative_path(&parent, target)
        },
        None => None,
    }
}

/// Where links show entries, and the names they show.
fn index_overlay(entries: &Vec<ManifestEntry>) -> (tables: (PathIndex, ChildTable))
    ensures
        tables.1.wf(),
        overlay_indexed(entry_models(entries@), tables.0, entries@.len() as int, 0),
        forall|p: Seq<Part>, n: Seq<char>| #[trigger]
            tables.1.has(p, n) <==> shown_below(entry_models(entries@), p, n),
{
    let ghost es = entry_models(entries@);
    let mut index = PathIndex::new();
    let mut table = ChildTable::new();
    let mut l: usize = 0;
    proof {
        assert forall|q: Seq<Part>| #[trigger] overlay_indexed_at(es, index, 0, 0, q) by {}
    }
    while l < entries.len()
        invariant
            l <= entries@.len(),
            es == entry_models(entries@),
            table.wf(),
            overlay_indexed(es, index, l as int, 0),
            forall|p: Seq<Part>, n: Seq<char>| #[trigger]
                table.has(p, n) <==> exists|l1: int, t1: int|
                    l1 < l && #[trigger] shows(es, l1, t1, p.push(Part::Normal(n))),
        decreases entries@.len() - l,
    {
        let link = &entries[l];
        assert(es[l as int] == link@);
        match link_target_of(link) {
            None => {
                proof {
                    assert forall|t1: int, q: Seq<Part>| !#[trigger] shows(es, l as int, t1, q) by {}
                    assert forall|q: Seq<Part>| #[trigger] overlay_indexed_at(
                        es,
                        index,
                        l as int + 1,
                        0,
                        q,
                    ) by {
                        assert(overlay_indexed_at(es, index, l as int, 0, q));
                    }
                }
            },
            Some(target) => {
                let mut t: usize = 0;
                while t < entries.len()
                    invariant
                        l < entries@.len(),
                        t <= entries@.len(),
                        es == entry_models(entries@),
                        link == &entries@[l as int],
                        es[l as int] == link@,
                        link_target(es[l as int]) == Some(target@),
                        table.wf(),
                        overlay_indexed(es, index, l as int, t as int),
                        forall|p: Seq<Part>, n: Seq<char>| #[trigger]
                            table.has(p, n) <==> exists|l1: int, t1: int|
                                (l1 < l || (l1 == l && t1 < t)) && #[trigger] shows(
                                    es,
                                    l1,
                                    t1,
                                    p.push(Part::Normal(n)),
                                ),
                    decreases entries@.len() - t,
                {
                    let entry = &entries[t];
                    assert(es[t as int] == entry@);
                    let ghost table0 = table;
                    let ghost index0 = index;
                    let seen = match entry.path.strip_prefix(&target) {
                        None => None,
                        Some(suffix) => if suffix.parts.len() == 0 {
                            None
                        } else {
                            let seen = link.path.join(&suffix);
                            if seen.same(&link.path) {
                                None
                            } else {
                                Some(seen)
                            }
                        },
                    };
                    proof {
                        assert(overlay(es, l as int, t as int) == (match seen {
                            Some(seen) => Some(seen@),
                            None => None,
                        }));
                    }
                    if let Some(seen) = seen {
                        assert(shows(es, l as int, t as int, seen@));
                        let code = code_of(&seen);
                        if index.get(&code).is_none() {
                            index.insert(code, t);
                        }
                        proof {
                            lemma_overlay_step(es, index0, index, l as int, t as int, seen@);
                        }
                        match (seen.parent(), seen.file_name()) {
                            (Some(parent), Some(name)) => {
                                table.insert(&parent, name.clone());
                                assert(seen@ =~= parent@.push(Part::Normal(name@)));
                                proof {
                                    assert forall|p: Seq<Part>, n: Seq<char>| #[trigger]
                                        table.has(p, n) <==> exists|l1: int, t1: int|
                                            (l1 < l || (l1 == l && t1 < t + 1))
                                                && #[trigger] shows(es, l1, t1, p.push(Part::Normal(n))) by {
                                        lemma_push_same(parent@, Part::Normal(name@), p, Part::Normal(n));
                                        assert(table0.has(p, n) <==> exists|l1: int, t1: int|
                                            (l1 < l || (l1 == l && t1 < t)) && #[trigger] shows(
                                                es,
                                                l1,
                                                t1,
                                                p.push(Part::Normal(n)),
                                            ));
                                        if p == parent@ && n == name@ {
                                            assert(shows(es, l as int, t as int, p.push(Part::Normal(n))));
                                        }
                                        lemma_shows_once(es, l as int, t as int, seen@, p.push(Part::Normal(n)));
                                    }
                                }
                            },
                            _ => {
                                proof {
                                    assert forall|p: Seq<Part>, n: Seq<char>| #[trigger]
                                        table.has(p, n) <==> exists|l1: int, t1: int|
                                            (l1 < l || (l1 == l && t1 < t + 1))
                                                && #[trigger] shows(es, l1, t1, p.push(Part::Normal(n))) by {
                                        assert(p.push(Part::Normal(n)).last() is Normal);
                                        lemma_shows_once(es, l as int, t as int, seen@, p.push(Part::Normal(n)));
                                        assert(table0.has(p, n) <==> exists|l1: int, t1: int|
                                            (l1 < l || (l1 == l && t1 < t)) && #[trigger] shows(
                                                es,
                                                l1,
                                                t1,
                                                p.push(Part::Normal(n)),
                                            ));
                                    }
                                }
                            },
                        }
                    } else {
                        proof {
                            assert forall|q: Seq<Part>| !#[trigger] shows(es, l as int, t as int, q) by {}
                            assert forall|q: Seq<Part>| #[trigger] overlay_indexed_at(
                                es,
                                index,
                                l as int,
                                t as int + 1,
                                q,
                            ) by {
                                assert(overlay_indexed_at(es, index, l as int, t as int, q));
                            }
                            assert forall|p: Seq<Part>, n: Seq<char>| #[trigger]
                                table.has(p, n) <==> exists|l1: int, t1: int|
                                    (l1 < l || (l1 == l && t1 < t + 1)) && #[trigger] shows(
                                        es,
                                        l1,
                                        t1,
                                        p.push(Part::Normal(n)),
                                    ) by {
                                assert(table0.has(p, n) <==> exists|l1: int, t1: int|
                                    (l1 < l || (l1 == l && t1 < t)) && #[trigger] shows(
                                        es,
                                        l1,
                                        t1,
                                        p.push(Part::Normal(n)),
                                    ));
                                assert(!shows(es, l as int, t as int, p.push(Part::Normal(n))));
                            }
                        }
                    }
                    t = t + 1;
                }
                proof {
                    assert forall|q: Seq<Part>| #[trigger] overlay_indexed_at(
                        es,
                        index,
                        l as int + 1,
                        0,
                        q,
                    ) by {
                        assert(overlay_indexed_at(es, index, l as int, t as int, q));
                    }
                }
            },
        }
        l = l + 1;
    }
    (index, table)
}

proof fn lemma_shows_once(es: Seq<Entry>, l: int, t: int, seen: Seq<Part>, q: Seq<Part>)
    requires
        shows(es, l, t, seen),
    ensures
        shows(es, l, t, q) <==> q == seen,
{
}

proof fn lemma_overlay_step(
    es: Seq<Entry>,
    index0: PathIndex,
    index: PathIndex,
    l: int,
    t: int,
    seen: Seq<Part>,
)
    requires
        overlay_indexed(es, index0, l, t),
        shows(es, l, t, seen),
        t <= usize::MAX,
        names::path_index_contents(index) == (if names::path_index_contents(
            index0,
        ).contains_key(path_code(seen)) {
            names::path_index_contents(index0)
        } else {
            names::path_index_contents(index0).insert(path_code(seen), t as usize)
        }),
    ensures
        overlay_indexed(es, index, l, t + 1),
{
    let held0 = names::path_index_contents(index0);
    let held = names::path_index_contents(index);
    assert forall|q: Seq<Part>| #[trigger] overlay_indexed_at(es, index, l, t + 1, q) by {
        assert(overlay_indexed_at(es, index0, l, t, q));
        if path_code(q) == path_code(seen) {
            lemma_path_code(q, seen);
        }
        if held.contains_key(path_code(q)) {
            if held0.contains_key(path_code(q)) {
                let l1 = choose|l1: int| first_shows(es, l1, held0[path_code(q)] as int, q);
                assert(held[path_code(q)] == held0[path_code(q)]);
                assert(first_shows(es, l1, held[path_code(q)] as int, q));
            } else {
                assert(held[path_code(q)] as int == t);
                assert(first_shows(es, l, held[path_code(q)] as int, q));
            }
        } else {
            assert(!shows(es, l, t, q));
            assert forall|l1: int, t1: int| l1 < l || (l1 == l && t1 < t + 1) implies !#[trigger] shows(
                es,
                l1,
                t1,
                q,
            ) by {
                if l1 == l && t1 == t {
                } else {
                    assert(l1 < l || (l1 == l && t1 < t));
                }
            }
        }
    }
}

impl SnapshotManifest {
    /// A manifest of these entries.
    pub fn new(schema: u32, entries: Vec<ManifestEntry>, content_digest: Option<u128>) -> (manifest:
        SnapshotManifest)
        ensures
            manifest.schema == schema,
            manifest.entries == entries,
            manifest.content_digest == content_digest,
            manifest.indexed(),
    {
        let index = ManifestIndex::over(&entries);
        SnapshotManifest { schema, entries, content_digest, index }
    }

    /// Derives the index from the entries anew.
    pub fn reindex(&mut self)
        ensures
            final(self).schema == old(self).schema,
            final(self).entries == old(self).entries,
            final(self).content_digest == old(self).content_digest,
            final(self).indexed(),
    {
        self.index = ManifestIndex::over(&self.entries);
    }

    /// Whether the manifest may answer queries: the schema is known, the paths are relative,
    /// not empty, made of names only, and ascend strictly.
    pub fn validate(&self) -> (valid: bool)
        ensures
            valid == (self.schema == MANIFEST_SCHEMA && valid_entries(self.es())),
    {
        let ghost es = self.es();
        if self.schema != MANIFEST_SCHEMA {
            return false;
        }
        let mut i: usize = 0;
        while i < self.entries.len()
            invariant
                i <= self.entries@.len(),
                es == self.es(),
                forall|a: int, b: int|
                    0 <= a < b < i ==> path::path_before(
                        (#[trigger] es[a]).path,
                        (#[trigger] es[b]).path,
                    ),
                forall|a: int|
                    0 <= a < i ==> (#[trigger] es[a]).path.len() > 0 && path::plain(es[a].path),
            decreases self.entries@.len() - i,
        {
            let p = &self.entries[i].path;
            assert(es[i as int].path == p@);
            if p.parts.len() == 0 {
                return false;
            }
            let mut k: usize = 0;
            while k < p.parts.len()
                invariant
                    k <= p.parts@.len(),
                    i < es.len(),
                    es == self.es(),
                    es[i as int].path == p@,
                    forall|a: int| 0 <= a < k ==> (#[trigger] p@[a]) is Normal,
                decreases p.parts@.len() - k,
            {
                assert(p@[k as int] == p.parts@[k as int]@);
                match p.parts[k] {
                    Component::Normal(_) => {},
                    _ => {
                        assert(!path::plain(es[i as int].path));
                        return false;
                    },
                }
                k = k + 1;
            }
            if i > 0 {
                let previous = &self.entries[i - 1].path;
                proof {
                    path::lemma_path_order();
                    assert(es[i - 1].path == previous@);
                }
                match previous.compare(p) {
                    Order::Less => {
                        proof {
                            assert(path::path_before(es[i - 1].path, es[i as int].path));
                            assert forall|a: int, b: int| 0 <= a < b < i + 1 implies path::path_before(
                                (#[trigger] es[a]).path,
                                (#[trigger] es[b]).path,
                            ) by {
                                if b == i && a < i - 1 {
                                    assert(path::path_before(es[a].path, es[i - 1].path));
                                    assert(<Path as Key>::before(es[a].path, es[i - 1].path));
                                    assert(<Path as Key>::before(es[i - 1].path, es[i as int].path));
                                }
                            }
                        }
                    },
                    _ => {
                        proof {
                            if path::path_before(es[i - 1].path, es[i as int].path) {
                                assert(<Path as Key>::before(es[i - 1].path, es[i as int].path));
                            }
                            assert(!path::path_before(es[i - 1].path, es[i as int].path));
                        }
                        return false;
                    },
                }
            }
            i = i + 1;
        }
        true
    }

    /// The position of the entry with the path.
    fn find(&self, rel: &Path) -> (found: Option<usize>)
        requires
            ordered(self.es()),
        ensures
            match found {
                Some(i) => entry_at(self.es(), rel@, i as int),
                None => forall|i: int| !entry_at(self.es(), rel@, i),
            },
    {
        let ghost es = self.es();
        let mut low: usize = 0;
        let mut high: usize = self.entries.len();
        proof {
            path::lemma_path_order();
        }
        while low < high
            invariant
                es == self.es(),
                ordered(es),
                low <= high <= self.entries@.len(),
                forall|a: Seq<Part>, b: Seq<Part>, c: Seq<Part>| #[trigger]
                    path::path_before(a, b) && #[trigger] path::path_before(b, c)
                        ==> path::path_before(a, c),
                forall|a: Seq<Part>| !#[trigger] path::path_before(a, a),
                forall|i: int| 0 <= i < low ==> path::path_before((#[trigger] es[i]).path, rel@),
                forall|i: int|
                    high <= i < es.len() ==> path::path_before(rel@, (#[trigger] es[i]).path),
            decreases high - low,
        {
            let mid: usize = low + (high - low) / 2;
            assert(es[mid as int].path == self.entries@[mid as int].path@);
            match rel.compare(&self.entries[mid].path) {
                Order::Equal => {
                    return Some(mid);
                },
                Order::Less => {
                    assert(path::path_before(rel@, es[mid as int].path));
                    high = mid;
                },
                Order::Greater => {
                    assert(path::path_before(es[mid as int].path, rel@));
                    low = mid + 1;
                },
            }
        }
        assert forall|i: int| !entry_at(es, rel@, i) by {
            if entry_at(es, rel@, i) {
                assert(path::path_before(rel@, rel@));
            }
        }
        None
    }

    /// The kind of what stands at a path, or is shown there by a link.
    pub fn kind_of(&self, rel: &Path) -> (kind: Option<ManifestKind>)
        requires
            self.indexed(),
            ordered(self.es()),
        ensures
            kind == kind_at(self.es(), rel@),
    {
        let ghost es = self.es();
        match self.find(rel) {
            Some(i) => {
                proof {
                    lemma_entry_unique(es, rel@, i as int);
                    assert(es[i as int] == self.entries@[i as int]@);
                }
                Some(self.entries[i].kind)
            },
            None => {
                let code = code_of(rel);
                let found = self.index.overlay_entries.get(&code);
                proof {
                    assert(overlay_indexed_at(
                        es,
                        self.index.overlay_entries,
                        es.len() as int,
                        0,
                        rel@,
                    ));
                }
                match found {
                    Some(t) => {
                        proof {
                            let l = choose|l: int| first_shows(es, l, t as int, rel@);
                            assert(shows(es, l, t as int, rel@));
                            lemma_first_shows_unique(es, rel@, l, t as int);
                            assert(es[t as int] == self.entries@[t as int]@);
                        }
                        Some(self.entries[t].kind)
                    },
                    None => {
                        proof {
                            assert forall|l: int, t: int| !#[trigger] shows(es, l, t, rel@) by {}
                            lemma_not_shown(es, rel@);
                        }
                        None
                    },
                }
            },
        }
    }

    /// The kind of what an entry leads to, where that was recorded.
    pub fn followed_kind_of(&self, rel: &Path) -> (kind: Option<ManifestKind>)
        requires
            ordered(self.es()),
        ensures
            kind == followed_at(self.es(), rel@),
    {
        match self.find(rel) {
            Some(i) => {
                proof {
                    lemma_entry_unique(self.es(), rel@, i as int);
                    assert(self.es()[i as int] == self.entries@[i as int]@);
                }
                self.entries[i].followed_kind
            },
            None => None,
        }
    }

    /// The names visible directly below a path.
    pub fn child_names(&self, parent: &Path) -> (names: SortedSet<String>)
        requires
            self.indexed(),
            ordered(self.es()),
        ensures
            names.wf(),
            forall|n: Seq<char>| #[trigger] names.has(n) <==> child_at(self.es(), parent@, n),
    {
        match self.kind_of(parent) {
            Some(ManifestKind::Dir) => both_names(
                self.index.children.names_below(parent),
                self.index.overlay_children.names_below(parent),
            ),
            Some(ManifestKind::Symlink) => self.index.overlay_children.names_below(parent),
            _ => SortedSet::new(),
        }
    }

    /// The first components of the entries.
    pub fn top_level(&self) -> (list: &Vec<Path>)
        requires
            self.indexed(),
        ensures
            order::sorted_from::<Path>(path_models(list@), first_components(self.es())),
            path_models(list@) == self.index.tops(),
    {
        &self.index.top_level
    }

    /// The Lua module roots.
    pub fn lua_roots(&self) -> (roots: &SortedSet<String>)
        requires
            self.indexed(),
        ensures
            roots.wf(),
            forall|r: Seq<char>| #[trigger] roots.has(r) <==> has_lua_root(self.es(), r),
            roots.members() == self.index.roots(),
    {
        &self.index.lua_roots
    }

    /// The files of the documentation.
    pub fn doc_files(&self) -> (list: &Vec<Path>)
        requires
            self.indexed(),
        ensures
            order::sorted_from::<Path>(path_models(list@), leaves_below(self.es(), "doc"@)),
            path_models(list@) == self.index.docs(),
    {
        &self.index.doc_files
    }

    /// The file type plugins.
    pub fn ftplugin_files(&self) -> (list: &Vec<Path>)
        requires
            self.indexed(),
        ensures
            order::sorted_from::<Path>(path_models(list@), leaves_below(self.es(), "ftplugin"@)),
            path_models(list@) == self.index.ftplugins(),
    {
        &self.index.ftplugin_files
    }
}

impl ManifestIndex {
    fn over(entries: &Vec<ManifestEntry>) -> (index: ManifestIndex)
        ensures
            index.answers(entry_models(entries@)),
    {
        let children = index_children(entries);
        let (overlay_entries, overlay_children) = index_overlay(entries);
        ManifestIndex {
            children,
            overlay_entries,
            overlay_children,
            top_level: top_level_of(entries),
            lua_roots: lua_roots_of(entries),
            doc_files: leaves_of(entries, "doc"),
            ftplugin_files: leaves_of(entries, "ftplugin"),
        }
    }
}

pub proof fn lemma_entry_unique(es: Seq<Entry>, p: Seq<Part>, i: int)
    requires
        ordered(es),
        entry_at(es, p, i),
    ensures
        kind_at(es, p) == Some(es[i].kind),
        followed_at(es, p) == es[i].followed_kind,
{
    path::lemma_path_order();
    let j = choose|j: int| entry_at(es, p, j);
    assert(entry_at(es, p, j));
    if i < j {
        assert(path::path_before(es[i].path, es[j].path));
        assert(<Path as Key>::before(p, p));
    }
    if j < i {
        assert(path::path_before(es[j].path, es[i].path));
        assert(<Path as Key>::before(p, p));
    }
}

} // verus!
