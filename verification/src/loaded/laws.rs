//! What two packages become, and what is split off a package.

use crate::files::MergeType;
use crate::files::Item;
use crate::lazy_type;
use crate::lazy_type::Lazy;
use crate::loaded;
use crate::loaded::Plugin;
use crate::path::Part;
use vstd::prelude::*;

verus! {

/// The path lies below `doc`.
pub open spec fn below_doc(p: Seq<Part>) -> bool {
    p.len() > 1 && p[0] == Part::Normal("doc"@)
}

proof fn lemma_doc(p: Seq<Part>)
    ensures
        loaded::in_doc(p) <==> below_doc(p),
{
    let doc = seq![Part::Normal("doc"@)];
    if loaded::in_doc(p) {
        assert(p.subrange(0, 1) == doc);
        assert(p[0] == doc[0]);
        if p.len() == 1 {
            assert(p =~= doc);
        }
    }
    if below_doc(p) {
        assert(p.subrange(0, 1) =~= doc);
    }
}

/// What lies below `doc` is split off, and may there be replaced by other documentation; all else
/// stays as it is.
pub proof fn law_doc_is_split_off(m: Map<Seq<Part>, Item>, p: Seq<Part>)
    requires
        m.contains_key(p),
    ensures
        below_doc(p) ==> {
            &&& !loaded::without_doc(m).contains_key(p)
            &&& loaded::only_doc(m).contains_key(p)
            &&& loaded::only_doc(m)[p].source == m[p].source
            &&& loaded::only_doc(m)[p].identity == m[p].identity
            &&& loaded::only_doc(m)[p].merge_type == MergeType::Overwrite
        },
        !below_doc(p) ==> {
            &&& !loaded::only_doc(m).contains_key(p)
            &&& loaded::without_doc(m).contains_key(p)
            &&& loaded::without_doc(m)[p] == m[p]
        },
{
    lemma_doc(p);
}

/// Splitting off the documentation brings nothing that was not there.
pub proof fn law_split_brings_nothing(m: Map<Seq<Part>, Item>, p: Seq<Part>)
    requires
        !m.contains_key(p),
    ensures
        !loaded::only_doc(m).contains_key(p),
        !loaded::without_doc(m).contains_key(p),
{
}

/// Packages of documentation are loaded at startup after all others, and may always become one:
/// none conflicts with another.
pub proof fn law_docs_go_together(a: Map<Seq<Part>, Item>, b: Map<Seq<Part>, Item>)
    ensures
        loaded::doc_plugin(a).lazy is Start,
        loaded::doc_plugin(a).lazy == loaded::doc_plugin(b).lazy,
        loaded::doc_plugin(a).is_lazy_registration && loaded::doc_plugin(b).is_lazy_registration,
        loaded::doc_plugin(a).order == usize::MAX,
        loaded::doc_plugin(a).files == a,
        !loaded::doc_plugin(a).dotgit,
        loaded::doc_plugin(a).script.lua_start.len() == 0,
        loaded::doc_plugin(a).script.lua_before.len() == 0,
        loaded::doc_plugin(a).script.lua_after.len() == 0,
{
}

/// What two packages become is loaded when they are, as early in the order as the earlier of the
/// two, and keeps `.git` if one of them does.
pub proof fn law_combined(a: Plugin, b: Plugin)
    requires
        loaded::combinable(a, b),
    ensures
        ({
            let c = loaded::combined(a, b);
            &&& c.lazy == a.lazy && c.lazy == b.lazy
            &&& c.order <= a.order && c.order <= b.order
            &&& c.order == a.order || c.order == b.order
            &&& c.dotgit <==> a.dotgit || b.dotgit
            &&& c.is_lazy_registration == a.is_lazy_registration && c.is_lazy_registration
                == b.is_lazy_registration
            &&& a.merge_enabled && b.merge_enabled ==> c.merge_enabled
        }),
{
}

/// Of two packages of one lazy type the one with the smaller order comes out first; packages that
/// start with the editor come out after all that do not.
pub proof fn law_comes_out(a: Plugin, b: Plugin)
    ensures
        a.lazy == b.lazy ==> (loaded::comes_out_before(a, b) <==> a.order < b.order),
        a.lazy is Opt && b.lazy is Start ==> loaded::comes_out_before(a, b),
        !(loaded::comes_out_before(a, b) && loaded::comes_out_before(b, a)),
        a.lazy != b.lazy || a.order != b.order ==> loaded::comes_out_before(a, b)
            || loaded::comes_out_before(b, a),
{
    lazy_type::lemma_lazy_order();
}

/// A package of documentation has these files and no script, is loaded at startup and behind all
/// others, and any two whose files can be merged may become one.
pub proof fn law_documentation(m: Map<Seq<Part>, Item>, n: Map<Seq<Part>, Item>)
    ensures
        ({
            let docs = loaded::doc_plugin(m);
            &&& docs.files == m
            &&& docs.lazy is Start && docs.order == usize::MAX && !docs.dotgit
            &&& docs.is_lazy_registration && docs.merge_enabled
            &&& docs.script.lua_start.len() == 0 && docs.script.lua_after.len() == 0
                && docs.script.lua_before.len() == 0
            &&& docs.source_names.len() == 1
            &&& docs.source_names == loaded::doc_plugin(n).source_names
        }),
        crate::files::packages_mergeable(m, n) ==> loaded::combinable(
            loaded::doc_plugin(m),
            loaded::doc_plugin(n),
        ),
{
}

} // verus!
