//! Which of two packages a merged entry comes from.

use crate::files;
use crate::files::Item;
use crate::identity::FileId;
use crate::path::Part;
use vstd::prelude::*;

verus! {

/// Of two directories that are merged the second brings all that it has, and the first only what the
/// second has not; each entry keeps its source and whether it conflicts, and one of a snapshot is
/// known by its new path.
pub proof fn law_second_wins(p: Seq<Part>, l: Item, r: Item, q: Seq<Part>)
    requires
        files::expansion(p, l, r).contains_key(q),
    ensures
        ({
            let item = files::expansion(p, l, r)[q];
            let name = q.last()->Normal_0;
            &&& files::has_child(r.source, q.drop_last(), name) ==> item.source == r.source
                && item.merge_type == r.merge_type
            &&& !files::has_child(r.source, q.drop_last(), name) ==> item.source == l.source
                && item.merge_type == l.merge_type && files::has_child(
                l.source,
                q.drop_last(),
                name,
            )
            &&& item.identity matches FileId::RepoFile { relative_path, .. } ==> relative_path == q
        }),
{
}

/// Merging lists only what lies below the directories, and where both have a directory, what is in it
/// instead.
pub proof fn law_merged_lies_below(p: Seq<Part>, l: Item, r: Item, q: Seq<Part>)
    requires
        files::expansion(p, l, r).contains_key(q),
    ensures
        p.len() < q.len(),
        p.is_prefix_of(q),
        !(files::has_child(l.source, q.drop_last(), q.last()->Normal_0) && files::has_child(
            r.source,
            q.drop_last(),
            q.last()->Normal_0,
        ) && files::dir_item(files::child_of(l, q)) && files::dir_item(files::child_of(r, q))),
{
    assert(q.drop_last().push(q.last()) =~= q);
}

/// A new entry replaces one of its path, unless both are directories, which are merged; what is
/// listed at other paths stays, but for what lies below directories that are merged.
pub proof fn law_placed_entry(m: Map<Seq<Part>, Item>, p: Seq<Part>, item: Item, x: Seq<Part>)
    ensures
        ({
            let after = files::placed(m, p, item);
            let merges = m.contains_key(p) && files::dir_item(m[p]) && files::dir_item(item);
            &&& !merges ==> after.contains_key(p) && after[p] == item
            &&& merges ==> !after.contains_key(p)
            &&& x != p && !(merges && p.is_prefix_of(x)) ==> after.contains_key(x)
                == m.contains_key(x) && (m.contains_key(x) ==> after[x] == m[x])
            &&& merges && files::expansion(p, m[p], item).contains_key(x) ==> after.contains_key(x)
                && after[x] == files::expansion(p, m[p], item)[x]
        }),
{
}

/// Entries are placed in their order: the last one of a path that no later one touches stands.
pub proof fn law_last_placed(m: Map<Seq<Part>, Item>, list: Seq<(Seq<Part>, Item)>)
    requires
        list.len() > 0,
        !files::dir_item(list.last().1),
    ensures
        files::placed_all(m, list).contains_key(list.last().0),
        files::placed_all(m, list)[list.last().0] == list.last().1,
        files::placed_all(m, Seq::empty()) == m,
{
}

/// An entry of a sealed directory is of the same source and conflicts as the directory does.
pub proof fn law_child_of(item: Item, p: Seq<Part>)
    ensures
        files::child_of(item, p).source == item.source,
        files::child_of(item, p).merge_type == item.merge_type,
        item.identity matches FileId::RepoFile { snapshot, .. } ==> files::child_of(item, p).identity
            == (FileId::RepoFile { snapshot, relative_path: p }),
        item.identity is GeneratedFile ==> files::child_of(item, p).identity == item.identity,
{
}

} // verus!
