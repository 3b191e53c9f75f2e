//! The assembly of packages from snapshots.

use crate::config::SetupScript;
use crate::files;
use crate::files::{FileItem, FileSource, Item, MergeType, Source};
use crate::identity::{FileId, FileIdentity, RepoFileIdentity, RepoSnapshotIdentity, Snapshot};
use crate::lazy_type::{Event, Lazy, LazyType, LoadEvent};
use crate::loaded;
use crate::loaded::{LoadedPlugin, Plugin};
use crate::manifest;
use crate::manifest::{Entry, ManifestKind, SnapshotManifest};
use crate::order;
use crate::order::{Key, SortedMap, SortedSet};
use crate::path;
use crate::path::{Part, Path};
use crate::patterns;
use crate::text;
use std::sync::Arc;
use vstd::prelude::*;

pub mod laws;

verus! {

/// Paths as they are mathematically.
pub open spec fn parts_of(list: Seq<Path>) -> Seq<Seq<Part>> {
    list.map_values(|p: Path| p@)
}

/// The directory of the documentation.
pub open spec fn doc_dir() -> Seq<Part> {
    seq![Part::Normal("doc"@)]
}

/// A top-level entry that is not left out.
pub open spec fn is_kept(top: Seq<Seq<Part>>, ignored: Seq<bool>, p: Seq<Part>) -> bool {
    exists|i: int| 0 <= i < top.len() && #[trigger] top[i] == p && !ignored[i]
}

/// An entry of a snapshot is placed: at the top level, or a file of the documentation.  The
/// directory of the documentation is not placed itself, and its files not if it is left out.
pub open spec fn is_placed(
    top: Seq<Seq<Part>>,
    ignored: Seq<bool>,
    docs: Seq<Seq<Part>>,
    p: Seq<Part>,
) -> bool {
    (p != doc_dir() && is_kept(top, ignored, p)) || (docs.contains(p) && is_kept(
        top,
        ignored,
        doc_dir(),
    ))
}

/// The entries of a snapshot that are placed; `ignored` says of each top-level entry whether it is
/// left out.
pub fn placed_entries(top: &Vec<Path>, ignored: &Vec<bool>, docs: &Vec<Path>) -> (placed: Vec<
    Path,
>)
    requires
        ignored@.len() == top@.len(),
    ensures
        forall|p: Seq<Part>| #[trigger]
            parts_of(placed@).contains(p) <==> is_placed(
                parts_of(top@),
                ignored@,
                parts_of(docs@),
                p,
            ),
{
    let ghost tops = parts_of(top@);
    let ghost files = parts_of(docs@);
    let doc = Path::empty().child("doc");
    assert(doc@ =~= doc_dir());
    let mut placed: Vec<Path> = Vec::new();
    let mut with_docs = false;
    let mut i: usize = 0;
    while i < top.len()
        invariant
            i <= top@.len(),
            ignored@.len() == top@.len(),
            tops == parts_of(top@),
            doc@ == doc_dir(),
            with_docs == is_kept(tops.take(i as int), ignored@, doc_dir()),
            forall|p: Seq<Part>| #[trigger]
                parts_of(placed@).contains(p) <==> p != doc_dir() && is_kept(
                    tops.take(i as int),
                    ignored@,
                    p,
                ),
        decreases top@.len() - i,
    {
        let ghost before = parts_of(placed@);
        let ghost p0 = tops[i as int];
        proof {
            assert forall|p: Seq<Part>| #[trigger]
                is_kept(tops.take(i as int + 1), ignored@, p) <==> is_kept(
                    tops.take(i as int),
                    ignored@,
                    p,
                ) || (p == p0 && !ignored@[i as int]) by {
                let next = tops.take(i as int + 1);
                let now = tops.take(i as int);
                if is_kept(next, ignored@, p) {
                    let k = choose|k: int| 0 <= k < next.len() && #[trigger] next[k] == p && !ignored@[k];
                    if k < i {
                        assert(now[k] == p);
                    }
                }
                if is_kept(now, ignored@, p) {
                    let k = choose|k: int| 0 <= k < now.len() && #[trigger] now[k] == p && !ignored@[k];
                    assert(next[k] == p);
                }
                if p == p0 && !ignored@[i as int] {
                    assert(next[i as int] == p);
                }
            }
        }
        if !ignored[i] {
            if top[i].same(&doc) {
                with_docs = true;
            } else {
                placed.push(top[i].duplicated());
                proof {
                    assert(parts_of(placed@) =~= before.push(p0));
                    assert forall|p: Seq<Part>| #[trigger]
                        parts_of(placed@).contains(p) <==> before.contains(p) || p == p0 by {
                        order::lemma_contains_push(before, p0, p);
                    }
                }
            }
        }
        i = i + 1;
    }
    assert(tops.take(i as int) =~= tops);
    if with_docs {
        let ghost kept = parts_of(placed@);
        let mut j: usize = 0;
        assert(kept + files.take(0) =~= kept);
        while j < docs.len()
            invariant
                j <= docs@.len(),
                files == parts_of(docs@),
                parts_of(placed@) == kept + files.take(j as int),
            decreases docs@.len() - j,
        {
            let ghost now = parts_of(placed@);
            placed.push(docs[j].duplicated());
            proof {
                assert(parts_of(placed@) =~= now.push(files[j as int]));
                assert(now.push(files[j as int]) =~= kept + files.take(j as int + 1));
            }
            j = j + 1;
        }
        proof {
            assert(files.take(j as int) =~= files);
            assert forall|p: Seq<Part>| #[trigger]
                parts_of(placed@).contains(p) <==> kept.contains(p) || files.contains(p) by {
                let all = kept + files;
                if all.contains(p) {
                    let k = all.index_of(p);
                    if k < kept.len() {
                        assert(kept[k] == p);
                    } else {
                        assert(files[k - kept.len()] == p);
                    }
                }
                if kept.contains(p) {
                    assert(all[kept.index_of(p)] == p);
                }
                if files.contains(p) {
                    assert(all[kept.len() + files.index_of(p)] == p);
                }
            }
        }
    }
    placed
}

/// An entry of a snapshot as it stands in a package.
pub open spec fn repo_item(source: Source, identity: Snapshot, p: Seq<Part>) -> Item {
    Item {
        source,
        identity: FileId::RepoFile { snapshot: identity, relative_path: p },
        merge_type: MergeType::Conflict,
    }
}

/// The entries of a snapshot as they stand in a package.
pub open spec fn repo_files(source: Source, identity: Snapshot, placed: Seq<Seq<Part>>) -> Map<
    Seq<Part>,
    Item,
> {
    Map::new(|p: Seq<Part>| placed.contains(p), |p: Seq<Part>| repo_item(source, identity, p))
}

/// The lazy type with the modules that load the plugin when they are required.  A plugin that is
/// loaded at startup needs none.
pub open spec fn is_with_modules(lazy: Lazy, modules: Seq<Seq<char>>, all: Lazy) -> bool {
    match lazy {
        Lazy::Start => all == Lazy::Start,
        Lazy::Opt(events) => match all {
            Lazy::Opt(list) => order::ascending::<LoadEvent>(list) && forall|e: Event| #[trigger]
                list.contains(e) <==> events.contains(e) || exists|m: Seq<char>| #[trigger]
                    modules.contains(m) && e == Event::LuaModule(m),
            Lazy::Start => false,
        },
    }
}

/// A lazy type is that of startup.
pub open spec fn is_start(lazy: Lazy) -> bool {
    lazy == Lazy::Start
}

/// An event loads a plugin of the lazy type.
pub open spec fn loads(lazy: Lazy, e: Event) -> bool {
    match lazy {
        Lazy::Start => false,
        Lazy::Opt(events) => events.contains(e),
    }
}

/// Lazy types as they are mathematically.
pub open spec fn lazies(list: Seq<&LazyType>) -> Seq<Lazy> {
    list.map_values(|l: &LazyType| l@)
}

/// When a plugin is loaded on which others depend: at startup if one of them is, else by whatever
/// loads one of them.
pub open spec fn is_loaded_with(own: Lazy, others: Seq<Lazy>, all: Lazy) -> bool {
    let startup = is_start(own) || exists|i: int|
        0 <= i < others.len() && is_start(#[trigger] others[i]);
    match all {
        Lazy::Start => startup,
        Lazy::Opt(list) => !startup && order::ascending::<LoadEvent>(list) && forall|e: Event|
            #[trigger]
            list.contains(e) <==> loads(own, e) || exists|i: int|
                0 <= i < others.len() && loads(#[trigger] others[i], e),
    }
}

/// When a plugin is loaded on which others depend: dependencies load together with the plugins
/// that need them.
pub fn loaded_with(own: LazyType, others: &Vec<&LazyType>) -> (all: LazyType)
    requires
        loaded::lazy_wf(own),
    ensures
        loaded::lazy_wf(all),
        is_loaded_with(own@, lazies(others@), all@),
{
    let ghost first = own@;
    let ghost list = lazies(others@);
    let mut events = match own {
        LazyType::Start => {
            return LazyType::Start;
        },
        LazyType::Opt(events) => events,
    };
    let mut i: usize = 0;
    while i < others.len()
        invariant
            i <= others@.len(),
            list == lazies(others@),
            !is_start(first),
            events.wf(),
            forall|k: int| 0 <= k < i ==> !is_start(#[trigger] list[k]),
            forall|e: Event| #[trigger]
                events.has(e) <==> loads(first, e) || exists|k: int|
                    0 <= k < i && loads(#[trigger] list[k], e),
        decreases others@.len() - i,
    {
        let ghost before = events;
        assert(list[i as int] == others@[i as int]@);
        match others[i] {
            LazyType::Start => {
                assert(is_start(list[i as int]));
                return LazyType::Start;
            },
            LazyType::Opt(more) => {
                events.extend(more.duplicate());
                proof {
                    assert forall|e: Event| #[trigger]
                        events.has(e) <==> loads(first, e) || exists|k: int|
                            0 <= k < i + 1 && loads(#[trigger] list[k], e) by {
                        assert(events.has(e) <==> before.has(e) || more.has(e));
                        assert(more.has(e) <==> loads(list[i as int], e));
                        if before.has(e) && !loads(first, e) {
                            let k = choose|k: int| 0 <= k < i && loads(#[trigger] list[k], e);
                            assert(loads(list[k], e));
                        }
                        if exists|k: int| 0 <= k < i + 1 && loads(#[trigger] list[k], e) {
                            let k = choose|k: int| 0 <= k < i + 1 && loads(#[trigger] list[k], e);
                            if k < i {
                                assert(before.has(e));
                            }
                        }
                    }
                }
            },
        }
        i = i + 1;
    }
    proof {
        assert forall|e: Event| #[trigger]
            events.members().contains(e) <==> loads(first, e) || exists|k: int|
                0 <= k < list.len() && loads(#[trigger] list[k], e) by {
            assert(events.has(e) <==> loads(first, e) || exists|k: int|
                0 <= k < list.len() && loads(#[trigger] list[k], e));
        }
    }
    LazyType::Opt(events)
}

fn place_all(source: &Arc<FileSource>, identity: &RepoSnapshotIdentity, placed: &Vec<Path>) -> (files:
    SortedMap<Path, FileItem>)
    requires
        source.wf(),
    ensures
        files::files_wf(files),
        files::files_map(files) == repo_files(source@, identity@, parts_of(placed@)),
{
    let ghost all = parts_of(placed@);
    let mut files: SortedMap<Path, FileItem> = SortedMap::new();
    let mut i: usize = 0;
    assert(files::files_map(files) =~= repo_files(source@, identity@, all.take(0)));
    while i < placed.len()
        invariant
            i <= placed@.len(),
            all == parts_of(placed@),
            source.wf(),
            files::files_wf(files),
            files::files_map(files) == repo_files(source@, identity@, all.take(i as int)),
        decreases placed@.len() - i,
    {
        let ghost before = files;
        let ghost now = all.take(i as int);
        let key = placed[i].duplicated();
        let ghost k = key@;
        let item = FileItem::new(
            source.clone(),
            FileIdentity::RepoFile(RepoFileIdentity::new(identity.duplicate(), key.duplicated())),
            MergeType::Conflict,
        );
        let ghost added = item;
        assert(item@ == repo_item(source@, identity@, k));
        files.insert(key, item);
        proof {
            assert forall|q: Seq<Part>| #[trigger] files.has(q) implies files.at(q).wf() by {
                if q != k {
                    assert(before.has(q));
                }
            }
            assert(all.take(i as int + 1) =~= now.push(k));
            assert forall|q: Seq<Part>| #[trigger]
                now.push(k).contains(q) <==> now.contains(q) || q == k by {
                order::lemma_contains_push(now, k, q);
            }
            let wanted = repo_files(source@, identity@, now.push(k));
            let old_map = files::files_map(before);
            assert forall|q: Seq<Part>| #[trigger]
                files::files_map(files).contains_key(q) <==> wanted.contains_key(q) by {
                assert(files.has(q) <==> before.has(q) || q == k);
                assert(old_map.contains_key(q) <==> before.has(q));
            }
            assert forall|q: Seq<Part>| #[trigger]
                files::files_map(files).contains_key(q) implies files::files_map(files)[q]
                == wanted[q] by {
                if q != k {
                    assert(before.has(q));
                    assert(old_map.contains_key(q));
                    assert(old_map[q] == repo_item(source@, identity@, q));
                }
            }
            assert(files::files_map(files) =~= wanted);
        }
        i = i + 1;
    }
    assert(all.take(i as int) =~= all);
    files
}

fn add_modules(lazy_type: LazyType, modules: &Vec<String>) -> (all: LazyType)
    requires
        loaded::lazy_wf(lazy_type),
    ensures
        loaded::lazy_wf(all),
        is_with_modules(lazy_type@, text::strings(modules@), all@),
{
    let mut events = match lazy_type {
        LazyType::Start => {
            return LazyType::Start;
        },
        LazyType::Opt(events) => events,
    };
    let ghost given = events.members();
    let ghost names = text::strings(modules@);
    let mut i: usize = 0;
    assert(names.take(0) =~= Seq::<Seq<char>>::empty());
    while i < modules.len()
        invariant
            i <= modules@.len(),
            names == text::strings(modules@),
            events.wf(),
            forall|e: Event| #[trigger]
                events.has(e) <==> given.contains(e) || exists|m: Seq<char>| #[trigger]
                    names.take(i as int).contains(m) && e == Event::LuaModule(m),
        decreases modules@.len() - i,
    {
        let ghost before = events;
        let ghost now = names.take(i as int);
        let ghost name = names[i as int];
        events.insert(LoadEvent::LuaModule(modules[i].clone()));
        proof {
            let next = names.take(i as int + 1);
            assert(next =~= now.push(name));
            assert forall|e: Event| #[trigger] events.has(e) <==> given.contains(e) || exists|
                m: Seq<char>,
            | #[trigger]
                next.contains(m) && e == Event::LuaModule(m) by {
                assert(events.has(e) <==> before.has(e) || e == Event::LuaModule(name));
                assert(next[i as int] == name);
                assert(next.contains(name));
                if before.has(e) && !given.contains(e) {
                    let m = choose|m: Seq<char>| #[trigger]
                        now.contains(m) && e == Event::LuaModule(m);
                    order::lemma_contains_push(now, name, m);
                    assert(next.contains(m));
                }
                if exists|m: Seq<char>| #[trigger] next.contains(m) && e == Event::LuaModule(m) {
                    let m = choose|m: Seq<char>| #[trigger]
                        next.contains(m) && e == Event::LuaModule(m);
                    order::lemma_contains_push(now, name, m);
                    if m != name {
                        assert(now.contains(m));
                    }
                }
            }
        }
        i = i + 1;
    }
    proof {
        assert(names.take(i as int) =~= names);
        assert forall|e: Event| #[trigger]
            events.members().contains(e) <==> given.contains(e) || exists|m: Seq<char>| #[trigger]
                names.contains(m) && e == Event::LuaModule(m) by {
            assert(events.has(e) <==> given.contains(e) || exists|m: Seq<char>| #[trigger]
                names.contains(m) && e == Event::LuaModule(m));
        }
    }
    LazyType::Opt(events)
}

/// The names of a plugin with this name, if it has one.
pub open spec fn only_name(name: Option<Seq<char>>) -> Seq<Seq<char>> {
    match name {
        Some(name) => seq![name],
        None => Seq::empty(),
    }
}

fn name_set(name: Option<String>) -> (names: SortedSet<String>)
    ensures
        names.wf(),
        names.members() == only_name(text::optional_string(name)),
{
    let mut names: SortedSet<String> = SortedSet::new();
    let ghost wanted = only_name(text::optional_string(name));
    if let Some(name) = name {
        let ghost n = name@;
        names.insert(name);
        proof {
            assert(names.has(n));
            assert forall|i: int| 0 <= i < names.members().len() implies names.members()[i] == n by {
                assert(names.has(names.members()[i]));
            }
            order::lemma_ascending_distinct::<String>(names.members());
            if names.members().len() > 1 {
                assert(names.members()[0] == names.members()[1]);
            }
        }
    }
    assert(names.members() =~= wanted);
    names
}

/// A package of scripts alone.
pub fn script_only_plugin(
    source_name: Option<String>,
    lazy_type: LazyType,
    script: SetupScript,
    order: usize,
    merge_enabled: bool,
) -> (plugin: LoadedPlugin)
    requires
        loaded::lazy_wf(lazy_type),
        script.wf(),
    ensures
        plugin.wf(),
        plugin@ == (Plugin {
            source_names: only_name(text::optional_string(source_name)),
            lazy: lazy_type@,
            files: Map::empty(),
            script: script@,
            order: order as int,
            merge_enabled,
            is_lazy_registration: false,
            dotgit: false,
        }),
{
    let plugin = LoadedPlugin {
        source_names: name_set(source_name),
        lazy_type,
        files: SortedMap::new(),
        script,
        order,
        merge_enabled,
        is_lazy_registration: false,
        dotgit: false,
    };
    assert(plugin@.files =~= Map::empty());
    plugin
}

/// Of each top-level entry of a snapshot, whether the rules leave it out; the objects of the
/// repository are never left out.
pub open spec fn ignored_of(es: Seq<Entry>, top: Seq<Seq<Part>>, rules: Seq<Seq<char>>) -> Seq<bool> {
    top.map_values(
        |p: Seq<Part>|
            path::path_text(p) != ".git"@ && patterns::left_out(
                rules,
                path::path_text(p),
                manifest::kind_at(es, p) == Some(ManifestKind::Dir),
            ),
    )
}

/// Of each top-level entry of a snapshot, whether the rules leave it out.
pub fn ignored_entries(inventory: &SnapshotManifest, rules: &Vec<String>) -> (ignored: Vec<bool>)
    requires
        inventory.indexed(),
        manifest::ordered(inventory.es()),
    ensures
        exists|top: Seq<Seq<Part>>| #[trigger]
            order::sorted_from::<Path>(top, manifest::first_components(inventory.es())) && ignored@
                == ignored_of(inventory.es(), top, text::strings(rules@)),
{
    let top = inventory.top_level();
    let ghost paths = manifest::path_models(top@);
    let ghost all = ignored_of(inventory.es(), paths, text::strings(rules@));
    let mut ignored: Vec<bool> = Vec::new();
    let mut i: usize = 0;
    assert(ignored@ =~= all.take(0));
    while i < top.len()
        invariant
            i <= top@.len(),
            paths == manifest::path_models(top@),
            all == ignored_of(inventory.es(), paths, text::strings(rules@)),
            inventory.indexed(),
            manifest::ordered(inventory.es()),
            ignored@ == all.take(i as int),
        decreases top@.len() - i,
    {
        let path = &top[i];
        let name = path.to_text();
        let is_dir = match inventory.kind_of(path) {
            Some(ManifestKind::Dir) => true,
            _ => false,
        };
        let left_out = !text::same(name.as_str(), ".git") && patterns::is_ignored(
            rules,
            name.as_str(),
            is_dir,
        );
        ignored.push(left_out);
        proof {
            assert(paths[i as int] == path@);
            assert(all[i as int] == left_out);
            assert(all.take(i as int + 1) =~= all.take(i as int).push(left_out));
        }
        i = i + 1;
    }
    assert(all.take(i as int) =~= all);
    ignored
}

/// Assembles a package from a snapshot: the placed entries, and the modules it has as further
/// triggers.
pub fn assemble_loaded_plugin(
    source: &Arc<FileSource>,
    identity: &RepoSnapshotIdentity,
    placed: &Vec<Path>,
    modules: &Vec<String>,
    lazy_type: LazyType,
    source_name: Option<String>,
    script: SetupScript,
    order: usize,
    merge_enabled: bool,
    dotgit: bool,
) -> (plugin: LoadedPlugin)
    requires
        source.wf(),
        loaded::lazy_wf(lazy_type),
        script.wf(),
    ensures
        plugin.wf(),
        plugin@.source_names == only_name(text::optional_string(source_name)),
        is_with_modules(lazy_type@, text::strings(modules@), plugin@.lazy),
        plugin@.files == repo_files(source@, identity@, parts_of(placed@)),
        plugin@.script == script@,
        plugin@.order == order,
        plugin@.merge_enabled == merge_enabled,
        !plugin@.is_lazy_registration,
        plugin@.dotgit == dotgit,
{
    LoadedPlugin {
        source_names: name_set(source_name),
        lazy_type: add_modules(lazy_type, modules),
        files: place_all(source, identity, placed),
        script,
        order,
        merge_enabled,
        is_lazy_registration: false,
        dotgit,
    }
}

} // verus!
