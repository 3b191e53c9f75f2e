//! When the files of two packages stand in each other's way.

use crate::files;
use crate::files::laws;
use crate::files::{Item, MergeType};
use crate::loaded;
use crate::loaded::Plugin;
use crate::path::Part;
use vstd::prelude::*;

verus! {

/// Both packages list an entry at `p` that leads to `q`.
pub open spec fn both_lead(
    a: Map<Seq<Part>, Item>,
    b: Map<Seq<Part>, Item>,
    p: Seq<Part>,
    q: Seq<Part>,
) -> bool {
    &&& a.contains_key(p)
    &&& b.contains_key(p)
    &&& laws::leads_to(a[p], p, q)
    &&& laws::leads_to(b[p], p, q)
}

/// Neither entry refuses to meet a file of the other.
pub open spec fn yields(x: Item, y: Item) -> bool {
    x.merge_type != MergeType::Conflict && y.merge_type != MergeType::Conflict
}

/// What stands at `q` can be one thing of both packages: two directories, or two files of entries
/// that yield to each other.  Data at hand yields or does not, whatever it meets.
pub open spec fn fits_at(x: Item, y: Item, q: Seq<Part>) -> bool {
    if x.source is File || y.source is File {
        yields(x, y)
    } else {
        ||| files::is_dir(x.source, q) && files::is_dir(y.source, q)
        ||| !files::is_dir(x.source, q) && !files::is_dir(y.source, q) && yields(x, y)
    }
}

proof fn lemma_common(x: Item, y: Item, p: Seq<Part>, q: Seq<Part>)
    ensures
        files::common_path(x.source, y.source, p, q) <==> laws::leads_to(x, p, q)
            && laws::leads_to(y, p, q),
{
    if files::common_path(x.source, y.source, p, q) {
        assert forall|n: int| p.len() <= n < q.len() implies laws::step(
            x.source,
            q.take(n),
            #[trigger] q[n],
        ) && laws::step(y.source, q.take(n), q[n]) by {
            assert(files::common_step(x.source, y.source, q.take(n), q[n]));
        }
    }
    if laws::leads_to(x, p, q) && laws::leads_to(y, p, q) {
        assert forall|n: int| p.len() <= n < q.len() implies files::common_step(
            x.source,
            y.source,
            q.take(n),
            #[trigger] q[n],
        ) by {
            assert(laws::step(x.source, q.take(n), q[n]));
            assert(laws::step(y.source, q.take(n), q[n]));
        }
    }
}

/// Packages that may become one have no two files at one path of which either conflicts, at
/// whatever depth below what they list.
pub proof fn law_no_conflicting_files(a: Plugin, b: Plugin, p: Seq<Part>, q: Seq<Part>)
    requires
        loaded::combinable(a, b),
        both_lead(a.files, b.files, p, q),
        !files::is_dir(a.files[p].source, q),
        !files::is_dir(b.files[p].source, q),
    ensures
        a.files[p].merge_type != MergeType::Conflict,
        b.files[p].merge_type != MergeType::Conflict,
{
    lemma_common(a.files[p], b.files[p], p, q);
    assert(files::mergeable_at(p, a.files[p], b.files[p]));
}

/// Packages that may become one have no file where the other has a directory, wherever entries of
/// snapshots listed at one path lead.
pub proof fn law_no_file_for_a_directory(a: Plugin, b: Plugin, p: Seq<Part>, q: Seq<Part>)
    requires
        loaded::combinable(a, b),
        both_lead(a.files, b.files, p, q),
        a.files[p].source is Directory,
        b.files[p].source is Directory,
    ensures
        files::is_dir(a.files[p].source, q) == files::is_dir(b.files[p].source, q),
{
    lemma_common(a.files[p], b.files[p], p, q);
    assert(files::mergeable_at(p, a.files[p], b.files[p]));
}

/// Files of two packages can be merged exactly if they fit wherever entries that both list lead.
pub proof fn law_mergeable_where_all_fits(a: Map<Seq<Part>, Item>, b: Map<Seq<Part>, Item>)
    ensures
        files::packages_mergeable(a, b) <==> forall|p: Seq<Part>, q: Seq<Part>| #[trigger]
            both_lead(a, b, p, q) ==> fits_at(a[p], b[p], q),
{
    if files::packages_mergeable(a, b) {
        assert forall|p: Seq<Part>, q: Seq<Part>| #[trigger] both_lead(a, b, p, q) implies fits_at(
            a[p],
            b[p],
            q,
        ) by {
            lemma_common(a[p], b[p], p, q);
            assert(files::mergeable_at(p, a[p], b[p]));
            if !(a[p].source is File || b[p].source is File) {
                assert(files::agree_at(a[p], b[p], q));
            }
        }
    }
    if forall|p: Seq<Part>, q: Seq<Part>| #[trigger] both_lead(a, b, p, q) ==> fits_at(
        a[p],
        b[p],
        q,
    ) {
        assert forall|p: Seq<Part>| #[trigger]
            a.contains_key(p) && b.contains_key(p) implies files::mergeable_at(p, a[p], b[p]) by {
            if a[p].source is File || b[p].source is File {
                assert(p.is_prefix_of(p)) by {
                    assert(p =~= p.subrange(0, p.len() as int));
                }
                assert(both_lead(a, b, p, p));
            } else {
                assert forall|q: Seq<Part>| #[trigger]
                    files::common_path(a[p].source, b[p].source, p, q) implies files::agree_at(
                    a[p],
                    b[p],
                    q,
                ) by {
                    lemma_common(a[p], b[p], p, q);
                    assert(both_lead(a, b, p, q));
                }
            }
        }
    }
}

/// Two packages may become one exactly if they load on the same occasion, both are generated or
/// neither is and both let themselves be merged, and all that both have fits.
pub proof fn law_combinable(a: Plugin, b: Plugin)
    ensures
        loaded::combinable(a, b) ==> a.lazy == b.lazy && a.is_lazy_registration
            == b.is_lazy_registration,
        loaded::combinable(a, b) && !a.merge_enabled ==> a.is_lazy_registration,
        loaded::combinable(a, b) && !b.merge_enabled ==> b.is_lazy_registration,
        a.lazy == b.lazy && a.is_lazy_registration == b.is_lazy_registration && (
        a.is_lazy_registration || (a.merge_enabled && b.merge_enabled)) && (forall|
            p: Seq<Part>,
            q: Seq<Part>,
        | #[trigger]
            both_lead(a.files, b.files, p, q) ==> fits_at(a.files[p], b.files[p], q))
            ==> loaded::combinable(a, b),
{
    law_mergeable_where_all_fits(a.files, b.files);
}

} // verus!
