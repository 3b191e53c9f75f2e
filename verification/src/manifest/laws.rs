//! What an index tells of the entries of a manifest.

use crate::manifest;
use crate::manifest::{Entry, ManifestIndex, ManifestKind};
use crate::order;
use crate::path;
use crate::path::{Part, Path};
use vstd::prelude::*;

verus! {

/// The path is the first component of an entry.
pub open spec fn is_first_component(es: Seq<Entry>, p: Seq<Part>) -> bool {
    exists|i: int| 0 <= i < es.len() && (#[trigger] es[i]).path.take(1) == p
}

/// The path is that of an entry at or below `dir` that is no directory.
pub open spec fn is_leaf_below(es: Seq<Entry>, dir: Seq<char>, p: Seq<Part>) -> bool {
    exists|i: int|
        0 <= i < es.len() && (#[trigger] es[i]).path == p && es[i].kind != ManifestKind::Dir
            && es[i].path.len() > 0 && es[i].path[0] == Part::Normal(dir)
}

proof fn lemma_first_before(a: Seq<Part>, b: Seq<Part>)
    requires
        a.len() > 0,
        b.len() > 0,
        path::path_before(a, b),
    ensures
        a.take(1) == b.take(1) || path::path_before(a.take(1), b.take(1)),
{
    let x = a.take(1);
    let y = b.take(1);
    assert(x[0] == a[0] && y[0] == b[0]);
    if a[0] == b[0] {
        assert(x =~= y);
    } else {
        assert(order::lex_before(x, y, path::part_before()));
    }
}

proof fn lemma_first_components(es: Seq<Entry>)
    requires
        manifest::valid_entries(es),
    ensures
        order::ascending::<Path>(manifest::first_components(es)),
        forall|p: Seq<Part>| #[trigger]
            manifest::first_components(es).contains(p) <==> is_first_component(es, p),
        es.len() > 0 ==> manifest::first_components(es).len() > 0
            && manifest::first_components(es).last() == es.last().path.take(1),
    decreases es.len(),
{
    let all = manifest::first_components(es);
    if es.len() > 0 {
        let front = es.drop_last();
        let before = manifest::first_components(front);
        let top = es.last().path.take(1);
        assert(es.last() == es[es.len() - 1]);
        assert forall|i: int, j: int| 0 <= i < j < front.len() implies path::path_before(
            (#[trigger] front[i]).path,
            (#[trigger] front[j]).path,
        ) by {
            assert(front[i] == es[i] && front[j] == es[j]);
        }
        assert forall|i: int| 0 <= i < front.len() implies (#[trigger] front[i]).path.len() > 0
            && path::plain(front[i].path) by {
            assert(front[i] == es[i]);
        }
        lemma_first_components(front);
        path::lemma_path_order();
        if front.len() > 0 {
            let last = front.last();
            assert(last == es[es.len() - 2]);
            assert(path::path_before(es[es.len() - 2].path, es[es.len() - 1].path));
            lemma_first_before(last.path, es.last().path);
        }
        assert forall|i: int, j: int| 0 <= i < j < all.len() implies <Path as order::Key>::before(
            #[trigger] all[i],
            #[trigger] all[j],
        ) by {
            if j < before.len() {
                assert(<Path as order::Key>::before(before[i], before[j]));
            } else if i < before.len() - 1 {
                assert(<Path as order::Key>::before(before[i], before[before.len() - 1]));
                assert(path::path_before(before.last(), top));
            }
        }
        assert forall|p: Seq<Part>| #[trigger] all.contains(p) <==> is_first_component(es, p) by {
            if all.contains(p) {
                let k = choose|k: int| 0 <= k < all.len() && all[k] == p;
                if k < before.len() {
                    assert(before[k] == p);
                    assert(before.contains(p));
                    let i = choose|i: int|
                        0 <= i < front.len() && (#[trigger] front[i]).path.take(1) == p;
                    assert(es[i].path.take(1) == p);
                } else {
                    assert(es[es.len() - 1].path.take(1) == p);
                }
            }
            if is_first_component(es, p) {
                let i = choose|i: int| 0 <= i < es.len() && (#[trigger] es[i]).path.take(1) == p;
                if i < front.len() {
                    assert(front[i].path.take(1) == p);
                    assert(before.contains(p));
                    let k = choose|k: int| 0 <= k < before.len() && before[k] == p;
                    assert(all[k] == p);
                } else {
                    assert(all.last() == p);
                    assert(all[all.len() - 1] == p);
                }
            }
        }
    }
}

proof fn lemma_leaves_below(es: Seq<Entry>, dir: Seq<char>)
    requires
        manifest::ordered(es),
    ensures
        order::ascending::<Path>(manifest::leaves_below(es, dir)),
        forall|p: Seq<Part>| #[trigger]
            manifest::leaves_below(es, dir).contains(p) <==> is_leaf_below(es, dir, p),
    decreases es.len(),
{
    let all = manifest::leaves_below(es, dir);
    if es.len() > 0 {
        let front = es.drop_last();
        let before = manifest::leaves_below(front, dir);
        let last = es.last();
        assert(last == es[es.len() - 1]);
        assert forall|i: int, j: int| 0 <= i < j < front.len() implies path::path_before(
            (#[trigger] front[i]).path,
            (#[trigger] front[j]).path,
        ) by {
            assert(front[i] == es[i] && front[j] == es[j]);
        }
        lemma_leaves_below(front, dir);
        let head = seq![Part::Normal(dir)];
        assert(head.is_prefix_of(last.path) <==> last.path.len() > 0 && last.path[0]
            == Part::Normal(dir)) by {
            if head.is_prefix_of(last.path) {
                assert(head == last.path.subrange(0, 1));
                assert(head[0] == last.path.subrange(0, 1)[0]);
            } else if last.path.len() > 0 && last.path[0] == Part::Normal(dir) {
                assert(head =~= last.path.subrange(0, 1));
            }
        }
        assert forall|i: int, j: int| 0 <= i < j < all.len() implies <Path as order::Key>::before(
            #[trigger] all[i],
            #[trigger] all[j],
        ) by {
            if j < before.len() {
                assert(<Path as order::Key>::before(before[i], before[j]));
            } else {
                assert(before.contains(before[i]));
                let k = choose|k: int|
                    0 <= k < front.len() && (#[trigger] front[k]).path == before[i]
                        && front[k].kind != ManifestKind::Dir && front[k].path.len() > 0
                        && front[k].path[0] == Part::Normal(dir);
                assert(es[k].path == before[i]);
                assert(path::path_before(es[k].path, es[es.len() - 1].path));
            }
        }
        assert forall|p: Seq<Part>| #[trigger] all.contains(p) <==> is_leaf_below(es, dir, p) by {
            if all.contains(p) {
                let k = choose|k: int| 0 <= k < all.len() && all[k] == p;
                if k < before.len() {
                    assert(before[k] == p);
                    assert(before.contains(p));
                    let i = choose|i: int|
                        0 <= i < front.len() && (#[trigger] front[i]).path == p && front[i].kind
                            != ManifestKind::Dir && front[i].path.len() > 0 && front[i].path[0]
                            == Part::Normal(dir);
                    assert(es[i].path == p);
                } else {
                    assert(es[es.len() - 1].path == p);
                }
            }
            if is_leaf_below(es, dir, p) {
                let i = choose|i: int|
                    0 <= i < es.len() && (#[trigger] es[i]).path == p && es[i].kind
                        != ManifestKind::Dir && es[i].path.len() > 0 && es[i].path[0]
                        == Part::Normal(dir);
                if i < front.len() {
                    assert(front[i].path == p);
                    assert(before.contains(p));
                    let k = choose|k: int| 0 <= k < before.len() && before[k] == p;
                    assert(all[k] == p);
                } else {
                    assert(all[all.len() - 1] == p);
                }
            }
        }
    }
}

/// What is in order already is left as it is by sorting.
proof fn lemma_sorted_already(sorted: Seq<Seq<Part>>, keys: Seq<Seq<Part>>)
    requires
        order::sorted_from::<Path>(sorted, keys),
        order::ascending::<Path>(keys),
    ensures
        sorted == keys,
{
    path::lemma_path_order();
    assert forall|i: int, j: int| 0 <= i < j < keys.len() implies !<Path as order::Key>::before(
        #[trigger] keys[j],
        #[trigger] keys[i],
    ) by {
        assert(<Path as order::Key>::before(keys[i], keys[j]));
        if path::path_before(keys[j], keys[i]) {
            assert(path::path_before(keys[i], keys[i]));
        }
    }
    order::lemma_sorted_unique::<Path>(sorted, keys);
}

/// Of valid entries an index tells, each in order and without repetitions: the first components
/// of the paths, the entries at or below `doc` and `ftplugin` that are no directories, and the Lua
/// module roots.
pub proof fn law_index_answers(index: ManifestIndex, es: Seq<Entry>)
    requires
        manifest::valid_entries(es),
        index.answers(es),
    ensures
        order::ascending::<Path>(index.tops()),
        forall|p: Seq<Part>| #[trigger] index.tops().contains(p) <==> is_first_component(es, p),
        order::ascending::<Path>(index.docs()),
        forall|p: Seq<Part>| #[trigger]
            index.docs().contains(p) <==> is_leaf_below(es, "doc"@, p),
        order::ascending::<Path>(index.ftplugins()),
        forall|p: Seq<Part>| #[trigger]
            index.ftplugins().contains(p) <==> is_leaf_below(es, "ftplugin"@, p),
        order::ascending::<String>(index.roots()),
        forall|r: Seq<char>| #[trigger]
            index.roots().contains(r) <==> manifest::has_lua_root(es, r),
{
    lemma_first_components(es);
    lemma_sorted_already(index.tops(), manifest::first_components(es));
    lemma_leaves_below(es, "doc"@);
    lemma_sorted_already(index.docs(), manifest::leaves_below(es, "doc"@));
    lemma_leaves_below(es, "ftplugin"@);
    lemma_sorted_already(index.ftplugins(), manifest::leaves_below(es, "ftplugin"@));
    assert forall|r: Seq<char>| #[trigger]
        index.roots().contains(r) <==> manifest::has_lua_root(es, r) by {
        assert(index.lua_roots.has(r) <==> manifest::has_lua_root(es, r));
    }
}

/// Two indexes of the same entries tell the same, so that deriving an index anew changes no
/// answer.
pub proof fn law_reindexing_changes_nothing(one: ManifestIndex, other: ManifestIndex, es: Seq<Entry>)
    requires
        one.answers(es),
        other.answers(es),
    ensures
        one.tops() == other.tops(),
        one.docs() == other.docs(),
        one.ftplugins() == other.ftplugins(),
        one.roots() == other.roots(),
{
    order::lemma_sorted_unique::<Path>(one.tops(), other.tops());
    order::lemma_sorted_unique::<Path>(one.docs(), other.docs());
    order::lemma_sorted_unique::<Path>(one.ftplugins(), other.ftplugins());
    assert forall|r: Seq<char>| #[trigger] one.roots().contains(r) <==> other.roots().contains(r) by {
        assert(one.lua_roots.has(r) <==> manifest::has_lua_root(es, r));
        assert(other.lua_roots.has(r) <==> manifest::has_lua_root(es, r));
    }
    order::lemma_ascending_unique::<String>(one.roots(), other.roots());
}

} // verus!
