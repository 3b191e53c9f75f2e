//! What a package is assembled from, and when it is loaded.

use crate::assembly;
use crate::files::{MergeType, Source};
use crate::identity::{FileId, Snapshot};
use crate::lazy_type::{Event, Lazy};
use crate::manifest;
use crate::manifest::{Entry, ManifestKind};
use crate::path;
use crate::path::Part;
use crate::patterns;
use vstd::prelude::*;

verus! {

/// The path is `doc` at the top.
pub open spec fn is_doc(p: Seq<Part>) -> bool {
    p.len() == 1 && p[0] == Part::Normal("doc"@)
}

proof fn lemma_doc(p: Seq<Part>)
    ensures
        is_doc(p) <==> p == assembly::doc_dir(),
{
    if is_doc(p) {
        assert(p =~= assembly::doc_dir());
    }
}

/// Every entry at the top that is not left out is placed, but for `doc`; and what is left out
/// wherever it stands is not, unless it is a file of the documentation.
pub proof fn law_placed(
    top: Seq<Seq<Part>>,
    ignored: Seq<bool>,
    docs: Seq<Seq<Part>>,
    i: int,
    p: Seq<Part>,
)
    requires
        ignored.len() == top.len(),
        0 <= i < top.len(),
    ensures
        !ignored[i] && !is_doc(top[i]) ==> assembly::is_placed(top, ignored, docs, top[i]),
        assembly::is_placed(top, ignored, docs, p) && !docs.contains(p) ==> !is_doc(p) && exists|
            k: int,
        |
            0 <= k < top.len() && #[trigger] top[k] == p && !ignored[k],
{
    lemma_doc(top[i]);
    lemma_doc(p);
    if !ignored[i] {
        assert(assembly::is_kept(top, ignored, top[i]));
    }
}

/// The files of the documentation are placed together: all of them if `doc` is not left out, and
/// none if it is.
pub proof fn law_docs_placed(
    top: Seq<Seq<Part>>,
    ignored: Seq<bool>,
    docs: Seq<Seq<Part>>,
    p: Seq<Part>,
)
    requires
        ignored.len() == top.len(),
        docs.contains(p),
        !top.contains(p),
    ensures
        assembly::is_placed(top, ignored, docs, p) <==> exists|k: int|
            0 <= k < top.len() && is_doc(#[trigger] top[k]) && !ignored[k],
{
    assert(!assembly::is_kept(top, ignored, p)) by {
        if assembly::is_kept(top, ignored, p) {
            let k = choose|k: int| 0 <= k < top.len() && #[trigger] top[k] == p && !ignored[k];
            assert(top.contains(top[k]));
        }
    }
    if assembly::is_kept(top, ignored, assembly::doc_dir()) {
        let k = choose|k: int|
            0 <= k < top.len() && #[trigger] top[k] == assembly::doc_dir() && !ignored[k];
        lemma_doc(top[k]);
    }
    if exists|k: int| 0 <= k < top.len() && is_doc(#[trigger] top[k]) && !ignored[k] {
        let k = choose|k: int| 0 <= k < top.len() && is_doc(#[trigger] top[k]) && !ignored[k];
        lemma_doc(top[k]);
    }
}

/// An entry at the top is left out exactly if the rules leave it out, as a directory if it is one;
/// `.git` never is.
pub proof fn law_left_out_by_rules(
    es: Seq<Entry>,
    top: Seq<Seq<Part>>,
    rules: Seq<Seq<char>>,
    i: int,
)
    requires
        0 <= i < top.len(),
    ensures
        ({
            let ignored = assembly::ignored_of(es, top, rules);
            let name = path::path_text(top[i]);
            &&& ignored.len() == top.len()
            &&& name == ".git"@ ==> !ignored[i]
            &&& name != ".git"@ && manifest::kind_at(es, top[i]) == Some(ManifestKind::Dir) ==> ignored[i]
                == patterns::left_out(rules, name, true)
            &&& name != ".git"@ && manifest::kind_at(es, top[i]) != Some(ManifestKind::Dir) ==> ignored[i]
                == patterns::left_out(rules, name, false)
            &&& rules.len() == 0 ==> !ignored[i]
        }),
{
}

/// A package of a snapshot lists exactly what is placed, each under its own path and of this
/// snapshot, and no file of it yields to another package's.
pub proof fn law_placed_is_listed(
    source: Source,
    identity: Snapshot,
    placed: Seq<Seq<Part>>,
    p: Seq<Part>,
)
    ensures
        assembly::repo_files(source, identity, placed).contains_key(p) <==> placed.contains(p),
        placed.contains(p) ==> {
            let item = assembly::repo_files(source, identity, placed)[p];
            &&& item.source == source
            &&& item.identity == (FileId::RepoFile { snapshot: identity, relative_path: p })
            &&& item.merge_type == MergeType::Conflict
        },
{
}

/// The lazy type starts with the editor.
pub open spec fn starts(lazy: Lazy) -> bool {
    lazy is Start
}

/// The event is one of the lazy type.
pub open spec fn has_event(lazy: Lazy, e: Event) -> bool {
    lazy is Opt && lazy->Opt_0.contains(e)
}

/// A plugin on which others depend is loaded no later than any of them: at startup if it or one of
/// them is, and else by every event that loads it or one of them; and by nothing else.
pub proof fn law_loaded_no_later(own: Lazy, others: Seq<Lazy>, all: Lazy, i: int, e: Event)
    requires
        assembly::is_loaded_with(own, others, all),
        0 <= i < others.len(),
    ensures
        starts(own) ==> starts(all),
        starts(others[i]) ==> starts(all),
        starts(all) ==> starts(own) || exists|k: int|
            0 <= k < others.len() && starts(#[trigger] others[k]),
        has_event(own, e) ==> starts(all) || has_event(all, e),
        has_event(others[i], e) ==> starts(all) || has_event(all, e),
        has_event(all, e) ==> has_event(own, e) || exists|k: int|
            0 <= k < others.len() && has_event(#[trigger] others[k], e),
{
    assert(assembly::is_start(others[i]) <==> starts(others[i]));
    assert(assembly::loads(others[i], e) <==> has_event(others[i], e));
    if starts(all) && !starts(own) {
        let k = choose|k: int| 0 <= k < others.len() && assembly::is_start(#[trigger] others[k]);
        assert(starts(others[k]));
    }
    if has_event(all, e) && !has_event(own, e) {
        assert(all->Opt_0.contains(e));
        let k = choose|k: int| 0 <= k < others.len() && assembly::loads(#[trigger] others[k], e);
        assert(has_event(others[k], e));
    }
}

/// Without others a plugin is loaded when it says so itself.
pub proof fn law_loaded_alone(own: Lazy, all: Lazy, e: Event)
    requires
        assembly::is_loaded_with(own, Seq::empty(), all),
    ensures
        starts(all) == starts(own),
        has_event(all, e) == has_event(own, e),
{
    let none = Seq::<Lazy>::empty();
    assert(!exists|k: int| 0 <= k < none.len() && assembly::is_start(#[trigger] none[k]));
    if all is Opt {
        assert(all->Opt_0.contains(e) <==> assembly::loads(own, e) || exists|i: int|
            0 <= i < none.len() && assembly::loads(#[trigger] none[i], e));
    }
}

/// A lazy plugin is loaded by its own events and by every module that it has, and by nothing else;
/// one that starts with the editor goes on doing so.
pub proof fn law_modules_load(lazy: Lazy, modules: Seq<Seq<char>>, all: Lazy, e: Event, m: Seq<char>)
    requires
        assembly::is_with_modules(lazy, modules, all),
    ensures
        starts(lazy) == starts(all),
        has_event(lazy, e) ==> has_event(all, e),
        !starts(lazy) && modules.contains(m) ==> has_event(all, Event::LuaModule(m)),
        has_event(all, e) && !has_event(lazy, e) ==> e is LuaModule && modules.contains(
            e->LuaModule_0,
        ),
{
    if lazy is Opt && all is Opt {
        let list = all->Opt_0;
        let own = lazy->Opt_0;
        assert(list.contains(e) <==> own.contains(e) || exists|n: Seq<char>| #[trigger]
            modules.contains(n) && e == Event::LuaModule(n));
        let loaded = Event::LuaModule(m);
        assert(list.contains(loaded) <==> own.contains(loaded) || exists|n: Seq<char>| #[trigger]
            modules.contains(n) && loaded == Event::LuaModule(n));
    }
}

} // verus!
