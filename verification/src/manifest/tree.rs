//! What stands at the paths of a snapshot, and where its links lead.

use crate::manifest;
use crate::manifest::{Entry, ManifestKind};
use crate::path;
use crate::path::Part;
use vstd::prelude::*;

verus! {

/// What follows a path is resolved from where the path leads: paths that lead to the same place go
/// on to the same place.
proof fn lemma_goes_on(a: Seq<Part>, b: Seq<Part>, rest: Seq<Part>)
    requires
        manifest::resolve_dots(a) == manifest::resolve_dots(b),
    ensures
        manifest::resolve_dots(a + rest) == manifest::resolve_dots(b + rest),
    decreases rest.len(),
{
    if rest.len() == 0 {
        assert(a + rest =~= a);
        assert(b + rest =~= b);
    } else {
        lemma_goes_on(a, b, rest.drop_last());
        assert((a + rest).drop_last() =~= a + rest.drop_last());
        assert((b + rest).drop_last() =~= b + rest.drop_last());
        assert((a + rest).last() == rest.last());
        assert((b + rest).last() == rest.last());
    }
}

/// Names lead where they say; `.` leads nowhere else; `..` undoes the name before it, and leaves
/// the tree where there is none; and nothing leads on from outside the tree.
pub proof fn law_resolved(p: Seq<Part>, name: Seq<char>, rest: Seq<Part>)
    ensures
        path::plain(p) ==> manifest::resolve_dots(p) == Some(p),
        manifest::resolve_dots(p + seq![Part::Cur] + rest) == manifest::resolve_dots(p + rest),
        manifest::resolve_dots(p + seq![Part::Normal(name), Part::Parent] + rest)
            == manifest::resolve_dots(p + rest),
        manifest::resolve_dots(seq![Part::Parent] + rest) is None,
        manifest::resolve_dots(p + seq![Part::Root] + rest) is None,
        manifest::resolve_dots(p) is None ==> manifest::resolve_dots(p + rest) is None,
{
    if path::plain(p) {
        lemma_plain(p);
    }
    let cur = p + seq![Part::Cur];
    assert(cur.drop_last() =~= p);
    assert(cur.last() == Part::Cur);
    lemma_goes_on(cur, p, rest);
    let down = p + seq![Part::Normal(name)];
    assert(down.drop_last() =~= p);
    assert(down.last() == Part::Normal(name));
    let up = p + seq![Part::Normal(name), Part::Parent];
    assert(up.drop_last() =~= down);
    assert(up.last() == Part::Parent);
    if manifest::resolve_dots(p) is Some {
        let done = manifest::resolve_dots(p)->0;
        let deeper = done.push(Part::Normal(name));
        assert(manifest::resolve_dots(down) == Some(deeper));
        assert(deeper.drop_last() =~= done);
        assert(manifest::resolve_dots(up) == Some(done));
    } else {
        assert(manifest::resolve_dots(down) is None);
        assert(manifest::resolve_dots(up) is None);
    }
    lemma_goes_on(up, p, rest);
    let out = seq![Part::Parent];
    assert(out.drop_last() =~= Seq::<Part>::empty());
    assert(out.last() == Part::Parent);
    assert(manifest::resolve_dots(out.drop_last()) == Some(Seq::<Part>::empty()));
    assert(manifest::resolve_dots(out) is None);
    lemma_stays_out(out, rest);
    let root = p + seq![Part::Root];
    assert(root.drop_last() =~= p);
    assert(root.last() == Part::Root);
    lemma_stays_out(root, rest);
    if manifest::resolve_dots(p) is None {
        lemma_stays_out(p, rest);
    }
}

proof fn lemma_stays_out(p: Seq<Part>, rest: Seq<Part>)
    requires
        manifest::resolve_dots(p) is None,
    ensures
        manifest::resolve_dots(p + rest) is None,
    decreases rest.len(),
{
    if rest.len() == 0 {
        assert(p + rest =~= p);
    } else {
        lemma_stays_out(p, rest.drop_last());
        assert((p + rest).drop_last() =~= p + rest.drop_last());
    }
}

proof fn lemma_plain(p: Seq<Part>)
    requires
        path::plain(p),
    ensures
        manifest::resolve_dots(p) == Some(p),
    decreases p.len(),
{
    if p.len() > 0 {
        let front = p.drop_last();
        assert forall|i: int| 0 <= i < front.len() implies (#[trigger] front[i]) is Normal by {
            assert(p[i] == front[i]);
        }
        lemma_plain(front);
        assert(p[p.len() - 1] is Normal);
        assert(front.push(p.last()) =~= p);
    } else {
        assert(p =~= Seq::<Part>::empty());
    }
}

/// A target leads into the tree exactly if it is relative, does not leave the tree from where it is
/// seen, and is not the tree itself; and then to where its dots resolve.
pub proof fn law_normalized(parent: Seq<Part>, target: Seq<Part>, p: Seq<Part>)
    ensures
        manifest::normalized(parent, target) == Some(p) <==> !(target.len() > 0 && target[0] is Root)
            && manifest::resolve_dots(parent + target) == Some(p) && p.len() > 0,
{
}

/// The link leads to the directory `target` of the tree.
pub open spec fn leads_into(link: Entry, target: Seq<Part>) -> bool {
    &&& link.kind == ManifestKind::Symlink
    &&& link.followed_kind == Some(ManifestKind::Dir)
    &&& link.symlink_target is Some
    &&& manifest::normalized(
        link.path.drop_last(),
        link.symlink_target->0,
    ) == Some(target)
}

/// A link to a directory of the tree shows all that is below the directory, below itself; and
/// nothing else is shown.
pub proof fn law_links_show(es: Seq<Entry>, l: int, t: int, q: Seq<Part>)
    requires
        0 <= l < es.len(),
        0 <= t < es.len(),
        es[l].path.len() > 0,
        path::plain(es[l].path),
        path::plain(es[t].path),
    ensures
        manifest::shows(es, l, t, q) <==> exists|target: Seq<Part>, tail: Seq<Part>|
            leads_into(es[l], target) && tail.len() > 0 && es[t].path == #[trigger] (target + tail)
                && q == es[l].path + tail,
{
    let link = es[l];
    let p = es[t].path;
    assert(link.path[link.path.len() - 1] is Normal);
    assert(path::parent_path(link.path) == Some(link.path.drop_last()));
    if manifest::shows(es, l, t, q) {
        let target = manifest::link_target(link)->0;
        let tail = p.skip(target.len() as int);
        assert(target.is_prefix_of(p));
        assert(p =~= target + tail);
        assert(!path::absolute(tail)) by {
            assert(tail[0] == p[target.len() as int]);
        }
        assert(leads_into(link, target));
        assert(es[t].path == target + tail);
    }
    if exists|target: Seq<Part>, tail: Seq<Part>|
        leads_into(es[l], target) && tail.len() > 0 && es[t].path == #[trigger] (target + tail) && q
            == es[l].path + tail {
        let (target, tail) = choose|target: Seq<Part>, tail: Seq<Part>|
            leads_into(es[l], target) && tail.len() > 0 && es[t].path == #[trigger] (target + tail)
                && q == es[l].path + tail;
        assert(manifest::link_target(link) == Some(target));
        assert(target =~= p.subrange(0, target.len() as int));
        assert(p.skip(target.len() as int) =~= tail);
        assert(tail[0] == p[target.len() as int]);
        assert(!path::absolute(tail));
        assert(q.len() != link.path.len());
    }
}

/// What stands at the path of an entry is the entry, whatever links show there.
pub proof fn law_entry_stands(es: Seq<Entry>, i: int)
    requires
        manifest::ordered(es),
        0 <= i < es.len(),
    ensures
        manifest::kind_at(es, es[i].path) == Some(es[i].kind),
        manifest::followed_at(es, es[i].path) == es[i].followed_kind,
{
    let p = es[i].path;
    assert(manifest::entry_at(es, p, i));
    let k = choose|k: int| manifest::entry_at(es, p, k);
    path::lemma_path_order();
    if k < i {
        assert(path::path_before(es[k].path, es[i].path));
    }
    if i < k {
        assert(path::path_before(es[i].path, es[k].path));
    }
}

/// Where there is no entry there is what a link shows, of the kind of what it shows, or nothing.
pub proof fn law_shown_stands(es: Seq<Entry>, p: Seq<Part>)
    requires
        forall|i: int| 0 <= i < es.len() ==> (#[trigger] es[i]).path != p,
    ensures
        manifest::followed_at(es, p) is None,
        manifest::kind_at(es, p) is Some ==> exists|l: int, t: int| #[trigger]
            manifest::shows(es, l, t, p) && manifest::kind_at(es, p) == Some(es[t].kind),
{
    assert(!exists|i: int| manifest::entry_at(es, p, i)) by {
        if exists|i: int| manifest::entry_at(es, p, i) {
            let i = choose|i: int| manifest::entry_at(es, p, i);
            assert(es[i].path == p);
        }
    }
    if manifest::kind_at(es, p) is Some {
        let (l, t) = choose|l: int, t: int| #[trigger] manifest::first_shows(es, l, t, p);
        assert(manifest::shows(es, l, t, p));
    }
}

/// Below a directory stand its entries and what links show there, below a link only what it shows,
/// and below anything else nothing.
pub proof fn law_children(es: Seq<Entry>, i: int, name: Seq<char>)
    requires
        manifest::ordered(es),
        0 <= i < es.len(),
    ensures
        ({
            let below = es[i].path.push(Part::Normal(name));
            let listed = exists|k: int| 0 <= k < es.len() && (#[trigger] es[k]).path == below;
            let seen = exists|l: int, t: int| #[trigger] manifest::shows(es, l, t, below);
            &&& es[i].kind == ManifestKind::Dir ==> (manifest::child_at(es, es[i].path, name) <==> listed
                || seen)
            &&& es[i].kind == ManifestKind::Symlink ==> (manifest::child_at(es, es[i].path, name)
                <==> seen)
            &&& es[i].kind == ManifestKind::File ==> !manifest::child_at(es, es[i].path, name)
        }),
{
    law_entry_stands(es, i);
}

/// The entry of a name below `lua` makes the root of that name available: the whole name of a
/// directory, which a deeper entry tells of too, and the name without its suffix of a file.  What
/// is not below `lua` makes none available.
pub proof fn law_lua_root(e: Entry, name: Seq<char>)
    ensures
        e.path.len() < 2 || e.path[0] != Part::Normal("lua"@) ==> manifest::lua_root(e) is None,
        e.path.len() > 2 && e.path[0] == Part::Normal("lua"@) && e.path[1] == Part::Normal(name)
            && name.len() > 0 ==> manifest::lua_root(e) == Some(name),
        e.path.len() == 2 && e.path[0] == Part::Normal("lua"@) && e.path[1] == Part::Normal(name)
            && name.len() > 0 && e.kind == ManifestKind::Dir ==> manifest::lua_root(e) == Some(name),
        e.path.len() == 2 && e.path[0] == Part::Normal("lua"@) && e.path[1] == Part::Normal(
            name + ".lua"@,
        ) && name.len() > 0 && e.kind != ManifestKind::Dir ==> manifest::lua_root(e) == Some(name),
{
    let lua = seq![Part::Normal("lua"@)];
    reveal_strlit(".lua");
    if e.path.len() >= 1 && e.path[0] == Part::Normal("lua"@) {
        assert(lua =~= e.path.subrange(0, 1));
    }
    if lua.is_prefix_of(e.path) {
        assert(e.path.subrange(0, 1)[0] == e.path[0]);
    }
    let file = name + ".lua"@;
    reveal_with_fuel(path::last_dot, 5);
    if name.len() > 0 {
        assert(file.last() == 'a');
        assert(file.drop_last().last() == 'u');
        assert(file.drop_last().drop_last().last() == 'l');
        assert(file.drop_last().drop_last().drop_last() =~= name.push('.'));
        assert(name.push('.').last() == '.');
        assert(path::last_dot(file) == name.len());
        assert(file.take(name.len() as int) =~= name);
    }
}

/// The entries of a manifest that may answer differ in their paths, which are made of names.
pub proof fn law_valid_entries(es: Seq<Entry>, i: int, j: int)
    requires
        manifest::valid_entries(es),
        0 <= i < es.len(),
        0 <= j < es.len(),
    ensures
        es[i].path.len() > 0,
        forall|k: int| 0 <= k < es[i].path.len() ==> (#[trigger] es[i].path[k]) is Normal,
        i != j ==> es[i].path != es[j].path,
        i < j ==> path::path_before(es[i].path, es[j].path),
{
    path::lemma_path_order();
    if i < j {
        assert(path::path_before(es[i].path, es[j].path));
    }
    if j < i {
        assert(path::path_before(es[j].path, es[i].path));
    }
}

} // verus!
