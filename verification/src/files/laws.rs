//! What merging does to files.

use crate::files;
use crate::files::{Item, Source};
use crate::identity::FileId;
use crate::loaded;
use crate::order;
use crate::order::Key;
use crate::path;
use crate::path::Part;
use vstd::prelude::*;

verus! {

/// `q` lies below `p`.
pub open spec fn below(p: Seq<Part>, q: Seq<Part>) -> bool {
    p.is_prefix_of(q) && p != q
}

/// The source has a directory at `p` with the child `c`.
pub open spec fn step(source: Source, p: Seq<Part>, c: Part) -> bool {
    c is Normal && files::is_dir(source, p) && files::has_child(source, p, c->Normal_0)
}

/// An entry listed at `p` brings something to `q`.
pub open spec fn leads_to(item: Item, p: Seq<Part>, q: Seq<Part>) -> bool {
    &&& p.is_prefix_of(q)
    &&& forall|n: int| p.len() <= n < q.len() ==> step(item.source, q.take(n), #[trigger] q[n])
}

/// An entry listed at `p` brings a file to `q`.
pub open spec fn brings(item: Item, p: Seq<Part>, q: Seq<Part>) -> bool {
    leads_to(item, p, q) && !files::is_dir(item.source, q)
}

/// The entry of the package at `p` brings a file to `q`.
pub open spec fn file_from(m: Map<Seq<Part>, Item>, p: Seq<Part>, q: Seq<Part>) -> bool {
    m.contains_key(p) && brings(m[p], p, q)
}

/// The package has a file at `q`.
pub open spec fn has_file(m: Map<Seq<Part>, Item>, q: Seq<Part>) -> bool {
    exists|p: Seq<Part>| file_from(m, p, q)
}

/// An entry of a snapshot, listed at `p`, is known by that path.
pub open spec fn own(item: Item, p: Seq<Part>) -> bool {
    item.source is Directory ==> (item.identity matches FileId::RepoFile { relative_path, .. }
        && relative_path == p)
}

/// Every entry of a snapshot is listed at the path that it is known by.
pub open spec fn own_paths(m: Map<Seq<Part>, Item>) -> bool {
    forall|p: Seq<Part>| #[trigger] m.contains_key(p) ==> own(m[p], p)
}

/// Wherever both packages have something, both have a directory or neither has.
pub open spec fn same_kinds(a: Map<Seq<Part>, Item>, b: Map<Seq<Part>, Item>) -> bool {
    forall|p: Seq<Part>, r: Seq<Part>, q: Seq<Part>|
        a.contains_key(p) && b.contains_key(r) && #[trigger] leads_to(a[p], p, q)
            && #[trigger] leads_to(b[r], r, q) ==> files::is_dir(a[p].source, q) == files::is_dir(
            b[r].source,
            q,
        )
}

/// Wherever the package has something, `d` tells directories from files.
pub open spec fn agrees(m: Map<Seq<Part>, Item>, d: spec_fn(Seq<Part>) -> bool) -> bool {
    forall|p: Seq<Part>, q: Seq<Part>|
        m.contains_key(p) && #[trigger] leads_to(m[p], p, q) ==> files::is_dir(m[p].source, q)
            == d(q)
}

proof fn lemma_prefix(p: Seq<Part>, q: Seq<Part>)
    ensures
        p.is_prefix_of(q) <==> p.len() <= q.len() && forall|i: int|
            0 <= i < p.len() ==> #[trigger] p[i] == q[i],
{
    if p.is_prefix_of(q) {
        files::lemma_prefix_index(p, q);
    }
    if p.len() <= q.len() && forall|i: int| 0 <= i < p.len() ==> #[trigger] p[i] == q[i] {
        files::lemma_prefix_from_index(p, q);
    }
}

proof fn lemma_comparable(p: Seq<Part>, r: Seq<Part>, q: Seq<Part>)
    requires
        p.is_prefix_of(q),
        r.is_prefix_of(q),
        p.len() <= r.len(),
    ensures
        p.is_prefix_of(r),
        p.len() == r.len() ==> p == r,
{
    lemma_prefix(p, q);
    lemma_prefix(r, q);
    lemma_prefix(p, r);
    assert forall|i: int| 0 <= i < p.len() implies #[trigger] p[i] == r[i] by {
        assert(p[i] == q[i] && r[i] == q[i]);
    }
    if p.len() == r.len() {
        assert(p =~= r);
    }
}

proof fn lemma_longer(p: Seq<Part>, q: Seq<Part>)
    requires
        below(p, q),
    ensures
        p.len() < q.len(),
{
    lemma_prefix(p, q);
    if p.len() == q.len() {
        assert(p =~= q);
    }
}

proof fn lemma_transitive(p: Seq<Part>, r: Seq<Part>, q: Seq<Part>)
    requires
        p.is_prefix_of(r),
        r.is_prefix_of(q),
    ensures
        p.is_prefix_of(q),
{
    lemma_prefix(p, r);
    lemma_prefix(r, q);
    lemma_prefix(p, q);
    assert forall|i: int| 0 <= i < p.len() implies #[trigger] p[i] == q[i] by {
        assert(p[i] == r[i] && r[i] == q[i]);
    }
}

proof fn lemma_leads_self(item: Item, p: Seq<Part>)
    ensures
        leads_to(item, p, p),
{
    lemma_prefix(p, p);
}

proof fn lemma_leads_dir(item: Item, p: Seq<Part>, q: Seq<Part>, k: int)
    requires
        leads_to(item, p, q),
        p.len() <= k < q.len(),
    ensures
        files::is_dir(item.source, q.take(k)),
{
    assert(step(item.source, q.take(k), q[k]));
}

proof fn lemma_leads_parts(item: Item, p: Seq<Part>, q: Seq<Part>, k: int)
    requires
        leads_to(item, p, q),
        p.len() <= k <= q.len(),
    ensures
        leads_to(item, p, q.take(k)),
        leads_to(item, q.take(k), q),
{
    let e = q.take(k);
    lemma_prefix(p, q);
    lemma_prefix(p, e);
    lemma_prefix(e, q);
    assert forall|n: int| p.len() <= n < e.len() implies step(item.source, e.take(n), #[trigger] e[n]) by {
        assert(e.take(n) =~= q.take(n));
        assert(step(item.source, q.take(n), q[n]));
    }
}

proof fn lemma_leads_join(item: Item, p: Seq<Part>, e: Seq<Part>, q: Seq<Part>)
    requires
        leads_to(item, p, e),
        leads_to(item, e, q),
    ensures
        leads_to(item, p, q),
{
    lemma_transitive(p, e, q);
    lemma_prefix(e, q);
    lemma_prefix(p, e);
    assert forall|n: int| p.len() <= n < q.len() implies step(item.source, q.take(n), #[trigger] q[n]) by {
        if n < e.len() {
            assert(e.take(n) =~= q.take(n));
            assert(step(item.source, e.take(n), e[n]));
        }
    }
}

/// Only the source decides where an entry leads.
proof fn lemma_leads_source(x: Item, y: Item, p: Seq<Part>, q: Seq<Part>)
    requires
        x.source == y.source,
    ensures
        leads_to(x, p, q) == leads_to(y, p, q),
{
}

/// Wherever the entry leads, `d` tells directories from files.
spec fn item_kinds(item: Item, p: Seq<Part>, d: spec_fn(Seq<Part>) -> bool) -> bool {
    forall|q: Seq<Part>| #[trigger] leads_to(item, p, q) ==> files::is_dir(item.source, q) == d(q)
}

spec fn fits(item: Item, p: Seq<Part>, d: spec_fn(Seq<Part>) -> bool) -> bool {
    own(item, p) && item_kinds(item, p, d)
}

proof fn lemma_fits_dir(item: Item, p: Seq<Part>, d: spec_fn(Seq<Part>) -> bool)
    requires
        fits(item, p, d),
    ensures
        files::dir_item(item) == d(p),
        files::is_dir(item.source, p) == d(p),
{
    lemma_leads_self(item, p);
}

proof fn lemma_fits_child(item: Item, p: Seq<Part>, e: Seq<Part>, d: spec_fn(Seq<Part>) -> bool)
    requires
        fits(item, p, d),
        leads_to(item, p, e),
    ensures
        fits(files::child_of(item, e), e, d),
{
    let child = files::child_of(item, e);
    assert forall|q: Seq<Part>| #[trigger] leads_to(child, e, q) implies files::is_dir(
        child.source,
        q,
    ) == d(q) by {
        lemma_leads_source(child, item, e, q);
        lemma_leads_join(item, p, e, q);
    }
}

/// Every entry lies on one of two sides, and no directory of a side has an entry of its side
/// below it.
spec fn sided(
    m: Map<Seq<Part>, Item>,
    t: spec_fn(Seq<Part>) -> bool,
    d: spec_fn(Seq<Part>) -> bool,
) -> bool {
    &&& forall|p: Seq<Part>| #[trigger] m.contains_key(p) ==> fits(m[p], p, d)
    &&& forall|p: Seq<Part>, q: Seq<Part>|
        #![trigger m.contains_key(p), m.contains_key(q)]
        m.contains_key(p) && m.contains_key(q) && t(p) == t(q) && below(p, q) ==> !d(p)
}

/// An entry of the side can be placed at `p`.
spec fn room(
    m: Map<Seq<Part>, Item>,
    t: spec_fn(Seq<Part>) -> bool,
    d: spec_fn(Seq<Part>) -> bool,
    p: Seq<Part>,
    side: bool,
) -> bool {
    forall|e: Seq<Part>| #[trigger]
        m.contains_key(e) && t(e) == side ==> e != p && !(below(p, e) && d(p)) && !(below(e, p)
            && d(e))
}

/// What is new on the side comes from the entry placed at `p`.
spec fn grown(
    before: Map<Seq<Part>, Item>,
    t: spec_fn(Seq<Part>) -> bool,
    m: Map<Seq<Part>, Item>,
    u: spec_fn(Seq<Part>) -> bool,
    d: spec_fn(Seq<Part>) -> bool,
    p: Seq<Part>,
    side: bool,
) -> bool {
    forall|e: Seq<Part>| #[trigger]
        m.contains_key(e) && u(e) == side ==> (before.contains_key(e) && t(e) == side) || e == p || (
        p.is_prefix_of(e) && d(p))
}

proof fn lemma_place_entry(
    m: Map<Seq<Part>, Item>,
    t: spec_fn(Seq<Part>) -> bool,
    d: spec_fn(Seq<Part>) -> bool,
    p: Seq<Part>,
    item: Item,
    side: bool,
) -> (u: spec_fn(Seq<Part>) -> bool)
    requires
        sided(m, t, d),
        fits(item, p, d),
        room(m, t, d, p, side),
        !(m.contains_key(p) && d(p)),
    ensures
        sided(m.insert(p, item), u, d),
        grown(m, t, m.insert(p, item), u, d, p, side),
        forall|q: Seq<Part>| #[trigger]
            has_file(m.insert(p, item), q) <==> has_file(m, q) || brings(item, p, q),
{
    let u = |e: Seq<Part>| if e == p { side } else { t(e) };
    let after = m.insert(p, item);
    lemma_fits_dir(item, p, d);
    assert forall|x: Seq<Part>, y: Seq<Part>|
        #![trigger after.contains_key(x), after.contains_key(y)]
        after.contains_key(x) && after.contains_key(y) && u(x) == u(y) && below(x, y) implies !d(x) by {
        if x == p {
            assert(m.contains_key(y) && t(y) == side);
        } else if y == p {
            assert(m.contains_key(x) && t(x) == side);
        } else {
            assert(m.contains_key(x) && m.contains_key(y));
        }
    }
    assert forall|q: Seq<Part>| #[trigger] has_file(after, q) <==> has_file(m, q) || brings(item, p, q) by {
        if has_file(after, q) {
            let e = choose|e: Seq<Part>| file_from(after, e, q);
            if e != p {
                assert(file_from(m, e, q));
            }
        }
        if has_file(m, q) {
            let e = choose|e: Seq<Part>| file_from(m, e, q);
            if e == p {
                lemma_fits_dir(m[p], p, d);
                lemma_prefix(p, q);
                if p.len() < q.len() {
                    lemma_leads_dir(m[p], p, q, p.len() as int);
                    assert(q.take(p.len() as int) =~= p);
                }
                assert(p =~= q);
                lemma_leads_self(item, p);
                assert(file_from(after, p, q));
            } else {
                assert(file_from(after, e, q));
            }
        }
        if brings(item, p, q) {
            assert(file_from(after, p, q));
        }
    }
    u
}

proof fn lemma_expansion_dir(
    p: Seq<Part>,
    l: Item,
    r: Item,
    d: spec_fn(Seq<Part>) -> bool,
    e: Seq<Part>,
    k: int,
)
    requires
        fits(l, p, d),
        fits(r, p, d),
        d(p),
        p.is_prefix_of(e),
        p.len() <= k <= e.len(),
        forall|n: int| p.len() <= n < k ==> files::shared_dir(l, r, e.take(n), #[trigger] e[n]),
    ensures
        files::is_dir(l.source, e.take(k)),
        files::is_dir(r.source, e.take(k)),
        leads_to(l, p, e.take(k)),
        leads_to(r, p, e.take(k)),
    decreases k,
{
    lemma_fits_dir(l, p, d);
    lemma_fits_dir(r, p, d);
    lemma_prefix(p, e);
    if k == p.len() {
        assert(e.take(k) =~= p);
        lemma_leads_self(l, p);
        lemma_leads_self(r, p);
    } else {
        lemma_expansion_dir(p, l, r, d, e, k - 1);
        let before = e.take(k - 1);
        let now = e.take(k);
        let c = e[k - 1];
        assert(files::shared_dir(l, r, before, c));
        assert(now =~= before.push(c));
        lemma_prefix(before, now);
        assert(now.take(k - 1) =~= before);
        assert(leads_to(l, before, now));
        assert(leads_to(r, before, now));
        lemma_leads_join(l, p, before, now);
        lemma_leads_join(r, p, before, now);
        assert(files::dir_item(files::child_of(l, now)));
        assert(files::dir_item(files::child_of(r, now)));
        lemma_fits_child(l, p, now, d);
        lemma_fits_child(r, p, now, d);
        lemma_fits_dir(files::child_of(l, now), now, d);
        lemma_fits_dir(files::child_of(r, now), now, d);
    }
}

/// An entry of the expansion is one that its side leads to.
proof fn lemma_expansion_entry(
    p: Seq<Part>,
    l: Item,
    r: Item,
    d: spec_fn(Seq<Part>) -> bool,
    e: Seq<Part>,
)
    requires
        fits(l, p, d),
        fits(r, p, d),
        d(p),
        files::expands_to(p, l, r, e),
    ensures
        below(p, e),
        files::is_dir(l.source, e.drop_last()),
        files::is_dir(r.source, e.drop_last()),
        files::has_child(r.source, e.drop_last(), e.last()->Normal_0) ==> leads_to(r, p, e),
        files::has_child(l.source, e.drop_last(), e.last()->Normal_0) ==> leads_to(l, p, e),
        fits(files::preferred(l, r, e), e, d),
{
    let k = e.len() - 1;
    lemma_prefix(p, e);
    lemma_expansion_dir(p, l, r, d, e, k);
    let parent = e.take(k);
    assert(e.drop_last() =~= parent);
    lemma_prefix(parent, e);
    assert(e.take(k) =~= parent && e[k] == e.last());
    if files::has_child(r.source, parent, e.last()->Normal_0) {
        assert(leads_to(r, parent, e));
        lemma_leads_join(r, p, parent, e);
        lemma_fits_child(r, p, e, d);
    }
    if files::has_child(l.source, parent, e.last()->Normal_0) {
        assert(leads_to(l, parent, e));
        lemma_leads_join(l, p, parent, e);
        lemma_fits_child(l, p, e, d);
    }
}

proof fn lemma_expansion_apart(p: Seq<Part>, l: Item, r: Item, x: Seq<Part>, y: Seq<Part>)
    requires
        files::expands_to(p, l, r, x),
        files::expands_to(p, l, r, y),
    ensures
        !below(x, y),
{
    if below(x, y) {
        lemma_longer(x, y);
        lemma_prefix(x, y);
        let n = x.len() - 1;
        assert(files::shared_dir(l, r, y.take(n), y[n]));
        assert(y.take(n) =~= x.drop_last());
        assert(y[n] == x.last());
    }
}

/// What one of two directories has is found below their expansion.
proof fn lemma_expansion_finds(
    p: Seq<Part>,
    l: Item,
    r: Item,
    d: spec_fn(Seq<Part>) -> bool,
    q: Seq<Part>,
    from_r: bool,
    k: int,
) -> (e: Seq<Part>)
    requires
        fits(l, p, d),
        fits(r, p, d),
        d(p),
        brings(if from_r { r } else { l }, p, q),
        p.len() <= k <= q.len(),
        forall|n: int| p.len() <= n < k ==> files::shared_dir(l, r, q.take(n), #[trigger] q[n]),
    ensures
        files::expands_to(p, l, r, e),
        brings(files::preferred(l, r, e), e, q),
    decreases q.len() - k,
{
    let x = if from_r { r } else { l };
    lemma_prefix(p, q);
    lemma_expansion_dir(p, l, r, d, q, k);
    if k == q.len() {
        assert(q.take(k) =~= q);
        q
    } else if files::shared_dir(l, r, q.take(k), q[k]) {
        lemma_expansion_finds(p, l, r, d, q, from_r, k + 1)
    } else {
        let e = q.take(k + 1);
        lemma_prefix(p, e);
        assert(e.drop_last() =~= q.take(k));
        assert(e.last() == q[k]);
        assert(step(x.source, q.take(k), q[k]));
        assert forall|n: int| p.len() <= n < e.len() - 1 implies files::shared_dir(
            l,
            r,
            e.take(n),
            #[trigger] e[n],
        ) by {
            assert(e.take(n) =~= q.take(n));
            assert(files::shared_dir(l, r, q.take(n), q[n]));
        }
        assert(files::expands_to(p, l, r, e));
        lemma_expansion_entry(p, l, r, d, e);
        lemma_leads_parts(x, p, q, k + 1);
        if !from_r && files::has_child(r.source, e.drop_last(), e.last()->Normal_0) {
            lemma_fits_child(l, p, e, d);
            lemma_fits_child(r, p, e, d);
            lemma_fits_dir(files::child_of(l, e), e, d);
            lemma_fits_dir(files::child_of(r, e), e, d);
            assert(e.drop_last().push(e.last()) =~= e);
            assert(!d(e));
            if k + 1 < q.len() {
                lemma_leads_dir(l, p, q, k + 1);
            }
            assert(e =~= q);
            lemma_leads_self(files::child_of(r, e), e);
        } else {
            lemma_leads_source(x, files::preferred(l, r, e), e, q);
        }
        e
    }
}

proof fn lemma_place_dirs(
    m: Map<Seq<Part>, Item>,
    t: spec_fn(Seq<Part>) -> bool,
    d: spec_fn(Seq<Part>) -> bool,
    p: Seq<Part>,
    item: Item,
    side: bool,
) -> (u: spec_fn(Seq<Part>) -> bool)
    requires
        sided(m, t, d),
        fits(item, p, d),
        room(m, t, d, p, side),
        m.contains_key(p),
        d(p),
    ensures
        ({
            let after = m.remove(p).union_prefer_right(files::expansion(p, m[p], item));
            &&& sided(after, u, d)
            &&& grown(m, t, after, u, d, p, side)
            &&& forall|q: Seq<Part>| #[trigger]
                has_file(after, q) <==> has_file(m, q) || brings(item, p, q)
        }),
{
    let l = m[p];
    let more = files::expansion(p, l, item);
    let after = m.remove(p).union_prefer_right(more);
    let u = |e: Seq<Part>|
        if more.contains_key(e) {
            if files::has_child(item.source, e.drop_last(), e.last()->Normal_0) {
                side
            } else {
                !side
            }
        } else {
            t(e)
        };
    assert(fits(l, p, d));
    assert(t(p) != side);
    // Nothing is listed below `p`.
    assert forall|e: Seq<Part>| #[trigger] m.contains_key(e) implies !below(p, e) by {
        if below(p, e) && t(e) != side {
            assert(t(p) == t(e));
        }
    }
    assert forall|e: Seq<Part>| #[trigger] more.contains_key(e) implies below(p, e) && after[e]
        == more[e] && fits(after[e], e, d) by {
        lemma_expansion_entry(p, l, item, d, e);
    }
    assert forall|e: Seq<Part>| #[trigger] after.contains_key(e) implies fits(after[e], e, d) by {
        if !more.contains_key(e) {
            assert(m.contains_key(e));
        }
    }
    assert forall|x: Seq<Part>, y: Seq<Part>|
        #![trigger after.contains_key(x), after.contains_key(y)]
        after.contains_key(x) && after.contains_key(y) && u(x) == u(y) && below(x, y) implies !d(x) by {
        if more.contains_key(x) && more.contains_key(y) {
            lemma_expansion_apart(p, l, item, x, y);
        } else if more.contains_key(x) {
            lemma_transitive(p, x, y);
            lemma_longer(p, x);
            lemma_longer(x, y);
            assert(m.contains_key(y));
        } else if more.contains_key(y) {
            assert(m.contains_key(x) && x != p);
            lemma_longer(x, y);
            if x.len() <= p.len() {
                lemma_comparable(x, p, y);
                assert(below(x, p));
                if t(x) != side {
                    assert(t(x) == t(p));
                    assert(m.contains_key(p));
                }
            } else {
                lemma_comparable(p, x, y);
                assert(below(p, x));
            }
        } else {
            assert(m.contains_key(x) && m.contains_key(y));
        }
    }
    assert forall|e: Seq<Part>| #[trigger] after.contains_key(e) && u(e) == side implies (
    m.contains_key(e) && t(e) == side) || e == p || (p.is_prefix_of(e) && d(p)) by {
        if !more.contains_key(e) {
            assert(m.contains_key(e));
        }
    }
    assert forall|q: Seq<Part>| #[trigger] has_file(after, q) <==> has_file(m, q) || brings(item, p, q) by {
        if has_file(after, q) {
            let e = choose|e: Seq<Part>| file_from(after, e, q);
            if more.contains_key(e) {
                lemma_expansion_entry(p, l, item, d, e);
                let x = if files::has_child(item.source, e.drop_last(), e.last()->Normal_0) {
                    item
                } else {
                    l
                };
                lemma_leads_source(x, files::preferred(l, item, e), e, q);
                lemma_leads_join(x, p, e, q);
                if x == l {
                    assert(file_from(m, p, q));
                }
            } else {
                assert(file_from(m, e, q));
            }
        }
        if has_file(m, q) {
            let e = choose|e: Seq<Part>| file_from(m, e, q);
            if e == p {
                let f = lemma_expansion_finds(p, l, item, d, q, false, p.len() as int);
                assert(more.contains_key(f));
                assert(file_from(after, f, q));
            } else {
                assert(!more.contains_key(e));
                assert(file_from(after, e, q));
            }
        }
        if brings(item, p, q) {
            lemma_prefix(p, q);
            let f = lemma_expansion_finds(p, l, item, d, q, true, p.len() as int);
            assert(more.contains_key(f));
            assert(file_from(after, f, q));
        }
    }
    u
}

proof fn lemma_place(
    m: Map<Seq<Part>, Item>,
    t: spec_fn(Seq<Part>) -> bool,
    d: spec_fn(Seq<Part>) -> bool,
    p: Seq<Part>,
    item: Item,
    side: bool,
) -> (u: spec_fn(Seq<Part>) -> bool)
    requires
        sided(m, t, d),
        fits(item, p, d),
        room(m, t, d, p, side),
    ensures
        sided(files::placed(m, p, item), u, d),
        grown(m, t, files::placed(m, p, item), u, d, p, side),
        forall|q: Seq<Part>| #[trigger]
            has_file(files::placed(m, p, item), q) <==> has_file(m, q) || brings(item, p, q),
{
    lemma_fits_dir(item, p, d);
    if m.contains_key(p) {
        lemma_fits_dir(m[p], p, d);
    }
    if m.contains_key(p) && d(p) {
        lemma_place_dirs(m, t, d, p, item, side)
    } else {
        lemma_place_entry(m, t, d, p, item, side)
    }
}

/// An entry of the list brings a file to `q`.
spec fn list_brings(list: Seq<(Seq<Part>, Item)>, q: Seq<Part>) -> bool {
    exists|i: int| 0 <= i < list.len() && brings((#[trigger] list[i]).1, list[i].0, q)
}

/// The entries are of one package, and those above others come first.
spec fn row(list: Seq<(Seq<Part>, Item)>, d: spec_fn(Seq<Part>) -> bool) -> bool {
    &&& forall|i: int| 0 <= i < list.len() ==> fits((#[trigger] list[i]).1, list[i].0, d)
    &&& forall|i: int, j: int|
        0 <= i < j < list.len() ==> (#[trigger] list[i]).0 != (#[trigger] list[j]).0 && !below(
            list[j].0,
            list[i].0,
        ) && (below(list[i].0, list[j].0) ==> !d(list[i].0))
}

/// `e` comes from an entry of the list.
spec fn from_list(
    list: Seq<(Seq<Part>, Item)>,
    d: spec_fn(Seq<Part>) -> bool,
    e: Seq<Part>,
) -> bool {
    exists|i: int|
        0 <= i < list.len() && (e == (#[trigger] list[i]).0 || (list[i].0.is_prefix_of(e) && d(
            list[i].0,
        )))
}

proof fn lemma_place_all(
    m: Map<Seq<Part>, Item>,
    t: spec_fn(Seq<Part>) -> bool,
    d: spec_fn(Seq<Part>) -> bool,
    list: Seq<(Seq<Part>, Item)>,
    side: bool,
) -> (u: spec_fn(Seq<Part>) -> bool)
    requires
        sided(m, t, d),
        row(list, d),
        forall|i: int| 0 <= i < list.len() ==> room(m, t, d, (#[trigger] list[i]).0, side),
    ensures
        sided(files::placed_all(m, list), u, d),
        forall|e: Seq<Part>| #[trigger]
            files::placed_all(m, list).contains_key(e) && u(e) == side ==> (m.contains_key(e) && t(e)
                == side) || from_list(list, d, e),
        forall|q: Seq<Part>| #[trigger]
            has_file(files::placed_all(m, list), q) <==> has_file(m, q) || list_brings(list, q),
    decreases list.len(),
{
    if list.len() == 0 {
        t
    } else {
        let front = list.drop_last();
        let last = list.last();
        let p = last.0;
        assert(forall|i: int| 0 <= i < front.len() ==> #[trigger] front[i] == list[i]);
        assert(row(front, d));
        let v = lemma_place_all(m, t, d, front, side);
        let before = files::placed_all(m, front);
        assert(list[list.len() - 1] == last);
        assert forall|e: Seq<Part>| #[trigger] before.contains_key(e) && v(e) == side implies e != p
            && !(below(p, e) && d(p)) && !(below(e, p) && d(e)) by {
            if !(m.contains_key(e) && t(e) == side) {
                let i = choose|i: int|
                    0 <= i < front.len() && (e == (#[trigger] front[i]).0 || (
                    front[i].0.is_prefix_of(e) && d(front[i].0)));
                let f = list[i].0;
                assert(front[i] == list[i]);
                assert(f != p && !below(p, f) && (below(f, p) ==> !d(f)));
                lemma_prefix(f, e);
                if below(p, e) {
                    lemma_longer(p, e);
                    if f.len() <= p.len() {
                        lemma_comparable(f, p, e);
                        assert(below(f, p));
                    } else {
                        lemma_comparable(p, f, e);
                        assert(below(p, f));
                    }
                }
                if below(e, p) {
                    lemma_transitive(f, e, p);
                }
            } else {
                assert(room(m, t, d, list[list.len() - 1].0, side));
            }
        }
        let u = lemma_place(before, v, d, p, last.1, side);
        let after = files::placed(before, p, last.1);
        assert(files::placed_all(m, list) == after);
        assert forall|e: Seq<Part>| #[trigger] after.contains_key(e) && u(e) == side implies (
        m.contains_key(e) && t(e) == side) || from_list(list, d, e) by {
            if before.contains_key(e) && v(e) == side {
                if from_list(front, d, e) {
                    let i = choose|i: int|
                        0 <= i < front.len() && (e == (#[trigger] front[i]).0 || (
                        front[i].0.is_prefix_of(e) && d(front[i].0)));
                    assert(list[i] == front[i]);
                }
            } else {
                assert(list[list.len() - 1].0 == p);
            }
        }
        assert forall|q: Seq<Part>| #[trigger] has_file(after, q) <==> has_file(m, q)
            || list_brings(list, q) by {
            assert(has_file(before, q) <==> has_file(m, q) || list_brings(front, q));
            if list_brings(front, q) {
                let i = choose|i: int|
                    0 <= i < front.len() && brings((#[trigger] front[i]).1, front[i].0, q);
                assert(list[i] == front[i]);
            }
            if brings(last.1, p, q) {
                assert(brings(list[list.len() - 1].1, list[list.len() - 1].0, q));
            }
            if list_brings(list, q) {
                let i = choose|i: int|
                    0 <= i < list.len() && brings((#[trigger] list[i]).1, list[i].0, q);
                if i < list.len() - 1 {
                    assert(front[i] == list[i]);
                }
            }
        }
        u
    }
}

proof fn lemma_names_within(source: Source, p: Seq<Part>, within: Set<Seq<Part>>) -> (names: Seq<
    Seq<char>,
>)
    requires
        within.finite(),
    ensures
        order::ascending::<String>(names),
        forall|n: Seq<char>| #[trigger]
            names.contains(n) <==> files::has_child(source, p, n) && within.contains(
                p.push(Part::Normal(n)),
            ),
    decreases within.len(),
{
    if within.len() == 0 {
        let names = Seq::<Seq<char>>::empty();
        assert(within =~= Set::<Seq<Part>>::empty());
        names
    } else {
        let q = within.choose();
        let rest = lemma_names_within(source, p, within.remove(q));
        if q.len() > 0 && q.last() is Normal && q.drop_last() == p && files::has_child(
            source,
            p,
            q.last()->Normal_0,
        ) {
            let name = q.last()->Normal_0;
            let names = order::lemma_with_member::<String>(rest, name);
            assert(p.push(Part::Normal(name)) =~= q);
            assert forall|n: Seq<char>| #[trigger] names.contains(n) <==> files::has_child(source, p, n)
                && within.contains(p.push(Part::Normal(n))) by {
                assert(names.contains(n) <==> rest.contains(n) || n == name);
                assert(p.push(Part::Normal(n)).last() == Part::Normal(n));
            }
            names
        } else {
            assert forall|n: Seq<char>| #[trigger] rest.contains(n) <==> files::has_child(source, p, n)
                && within.contains(p.push(Part::Normal(n))) by {
                let child = p.push(Part::Normal(n));
                assert(child.drop_last() =~= p);
                assert(child.last() == Part::Normal(n));
            }
            rest
        }
    }
}

pub(crate) proof fn lemma_names(source: Source, p: Seq<Part>)
    ensures
        order::ascending::<String>(files::child_names(source, p)),
        forall|n: Seq<char>| #[trigger]
            files::child_names(source, p).contains(n) <==> files::has_child(source, p, n),
{
    files::lemma_tree_finite(source);
    let names = lemma_names_within(source, p, files::tree(source));
    assert forall|n: Seq<char>| #[trigger] names.contains(n) <==> files::has_child(source, p, n) by {
        let child = p.push(Part::Normal(n));
        assert(child.drop_last() =~= p);
        assert(child.last() == Part::Normal(n));
    }
    files::lemma_child_names(source, p, names);
}

proof fn lemma_unsealed(
    m: Map<Seq<Part>, Item>,
    t: spec_fn(Seq<Part>) -> bool,
    d: spec_fn(Seq<Part>) -> bool,
    p: Seq<Part>,
) -> (u: spec_fn(Seq<Part>) -> bool)
    requires
        sided(m, t, d),
        m.contains_key(p),
        files::dir_item(m[p]),
    ensures
        sided(files::unsealed(m, p), u, d),
        forall|q: Seq<Part>| #[trigger] has_file(files::unsealed(m, p), q) <==> has_file(m, q),
{
    let item = m[p];
    let side = t(p);
    let rest = m.remove(p);
    let names = files::child_names(item.source, p);
    let list = files::child_listing(item, p);
    lemma_fits_dir(item, p, d);
    lemma_names(item.source, p);
    order::lemma_ascending_distinct::<String>(names);
    assert(sided(rest, t, d)) by {
        assert forall|x: Seq<Part>, y: Seq<Part>|
            #![trigger rest.contains_key(x), rest.contains_key(y)]
            rest.contains_key(x) && rest.contains_key(y) && t(x) == t(y) && below(x, y) implies !d(x) by {
            assert(m.contains_key(x) && m.contains_key(y));
        }
        assert forall|x: Seq<Part>| #[trigger] rest.contains_key(x) implies fits(rest[x], x, d) by {
            assert(m.contains_key(x));
        }
    }
    assert forall|i: int| 0 <= i < list.len() implies (#[trigger] list[i]).0 == p.push(
        Part::Normal(names[i]),
    ) && list[i].1 == files::child_of(item, list[i].0) && leads_to(item, p, list[i].0) by {
        let child = p.push(Part::Normal(names[i]));
        assert(names.contains(names[i]));
        lemma_prefix(p, child);
        assert(child.take(p.len() as int) =~= p);
    }
    assert(row(list, d)) by {
        assert forall|i: int| 0 <= i < list.len() implies fits((#[trigger] list[i]).1, list[i].0, d) by {
            lemma_fits_child(item, p, list[i].0, d);
        }
        assert forall|i: int, j: int| 0 <= i < j < list.len() implies (#[trigger] list[i]).0
            != (#[trigger] list[j]).0 && !below(list[j].0, list[i].0) && (below(
            list[i].0,
            list[j].0,
        ) ==> !d(list[i].0)) by {
            assert(list[i].0.last() == Part::Normal(names[i]));
            assert(list[j].0.last() == Part::Normal(names[j]));
            if below(list[j].0, list[i].0) {
                lemma_longer(list[j].0, list[i].0);
            }
            if below(list[i].0, list[j].0) {
                lemma_longer(list[i].0, list[j].0);
            }
        }
    }
    assert forall|i: int| 0 <= i < list.len() implies room(rest, t, d, (#[trigger] list[i]).0, side) by {
        let child = list[i].0;
        assert forall|e: Seq<Part>| #[trigger] rest.contains_key(e) && t(e) == side implies e != child
            && !(below(child, e) && d(child)) && !(below(e, child) && d(e)) by {
            assert(m.contains_key(e));
            lemma_prefix(p, child);
            if child.is_prefix_of(e) {
                lemma_transitive(p, child, e);
                lemma_prefix(child, e);
                assert(below(p, e));
            } else {
                lemma_prefix(child, child);
            }
            if below(e, child) {
                lemma_longer(e, child);
                lemma_comparable(e, p, child);
                assert(below(e, p));
            }
        }
    }
    let u = lemma_place_all(rest, t, d, list, side);
    let after = files::unsealed(m, p);
    assert forall|q: Seq<Part>| #[trigger] has_file(after, q) <==> has_file(m, q) by {
        assert(has_file(files::placed_all(rest, list), q) <==> has_file(rest, q) || list_brings(
            list,
            q,
        ));
        if has_file(rest, q) {
            let e = choose|e: Seq<Part>| file_from(rest, e, q);
            assert(file_from(m, e, q));
        }
        if list_brings(list, q) {
            let i = choose|i: int|
                0 <= i < list.len() && brings((#[trigger] list[i]).1, list[i].0, q);
            lemma_leads_source(item, list[i].1, list[i].0, q);
            lemma_leads_join(item, p, list[i].0, q);
            assert(file_from(m, p, q));
        }
        if has_file(m, q) {
            let e = choose|e: Seq<Part>| file_from(m, e, q);
            if e != p {
                assert(file_from(rest, e, q));
            } else {
                lemma_prefix(p, q);
                if q.len() == p.len() {
                    assert(q =~= p);
                }
                let k = p.len() as int;
                assert(step(item.source, q.take(k), q[k]));
                assert(q.take(k) =~= p);
                let name = q[k]->Normal_0;
                assert(names.contains(name));
                let i = names.index_of(name);
                let child = q.take(k + 1);
                assert(child =~= p.push(Part::Normal(names[i])));
                assert(list[i].0 == child);
                lemma_leads_parts(item, p, q, k + 1);
                lemma_leads_source(item, list[i].1, child, q);
                assert(brings(list[i].1, list[i].0, q));
            }
        }
    }
    u
}

proof fn lemma_steps(
    m: Map<Seq<Part>, Item>,
    t: spec_fn(Seq<Part>) -> bool,
    d: spec_fn(Seq<Part>) -> bool,
    n: nat,
) -> (u: spec_fn(Seq<Part>) -> bool)
    requires
        sided(m, t, d),
    ensures
        sided(files::unseal_steps(m, n), u, d),
        forall|q: Seq<Part>| #[trigger] has_file(files::unseal_steps(m, n), q) <==> has_file(m, q),
    decreases n,
{
    if n == 0 {
        t
    } else {
        let before = files::unseal_steps(m, (n - 1) as nat);
        let u = lemma_steps(m, t, d, (n - 1) as nat);
        if exists|p: Seq<Part>| files::first_blocked(before, p) {
            let p = choose|p: Seq<Part>| files::first_blocked(before, p);
            let v = lemma_unsealed(before, u, d, p);
            assert forall|q: Seq<Part>| #[trigger] has_file(files::unseal_steps(m, n), q) <==> has_file(
                m,
                q,
            ) by {
                assert(has_file(before, q) <==> has_file(m, q));
                assert(has_file(files::unsealed(before, p), q) <==> has_file(before, q));
            }
            v
        } else {
            u
        }
    }
}

/// The package has a directory at `q`.
spec fn has_dir(m: Map<Seq<Part>, Item>, q: Seq<Part>) -> bool {
    exists|p: Seq<Part>| #[trigger]
        m.contains_key(p) && leads_to(m[p], p, q) && files::is_dir(m[p].source, q)
}

proof fn lemma_one_entry(m: Map<Seq<Part>, Item>, p: Seq<Part>, r: Seq<Part>, q: Seq<Part>)
    requires
        files::unblocked(m),
        own_paths(m),
        m.contains_key(p),
        m.contains_key(r),
        leads_to(m[p], p, q),
        leads_to(m[r], r, q),
        p.len() <= r.len(),
    ensures
        p == r,
{
    lemma_comparable(p, r, q);
    if p.len() < r.len() {
        lemma_prefix(p, q);
        lemma_prefix(r, q);
        lemma_leads_dir(m[p], p, q, p.len() as int);
        assert(q.take(p.len() as int) =~= p);
        assert(files::dir_item(m[p]));
        assert(m.contains_key(r) && p.is_prefix_of(r) && p != r);
        assert(files::blocked(m, p));
    }
}

/// What merging two packages does, where `d` tells directories from files.
pub(crate) proof fn lemma_union(
    a: Map<Seq<Part>, Item>,
    b: Map<Seq<Part>, Item>,
    list: Seq<(Seq<Part>, Item)>,
    done: Map<Seq<Part>, Item>,
    d: spec_fn(Seq<Part>) -> bool,
    q: Seq<Part>,
)
    requires
        files::unblocked(a),
        files::unblocked(b),
        own_paths(a),
        own_paths(b),
        agrees(a, d),
        agrees(b, d),
        loaded::is_listing(b, list),
        files::files_united(a, list, done),
    ensures
        has_file(done, q) <==> has_file(a, q) || has_file(b, q),
        files::unblocked(done),
        own_paths(done),
        agrees(done, d),
{
    let t = |x: Seq<Part>| true;
    assert forall|p: Seq<Part>| #[trigger] a.contains_key(p) implies fits(a[p], p, d) by {}
    assert forall|p: Seq<Part>| #[trigger] b.contains_key(p) implies fits(b[p], p, d) by {}
    assert(sided(a, t, d)) by {
        assert forall|x: Seq<Part>, y: Seq<Part>|
            #![trigger a.contains_key(x), a.contains_key(y)]
            a.contains_key(x) && a.contains_key(y) && t(x) == t(y) && below(x, y) implies !d(x) by {
            lemma_fits_dir(a[x], x, d);
            assert(!files::blocked(a, x));
        }
    }
    assert(row(list, d)) by {
        path::lemma_path_order();
        path::lemma_part_before();
        assert forall|i: int, j: int| 0 <= i < j < list.len() implies (#[trigger] list[i]).0
            != (#[trigger] list[j]).0 && !below(list[j].0, list[i].0) && (below(
            list[i].0,
            list[j].0,
        ) ==> !d(list[i].0)) by {
            let x = list[i].0;
            let y = list[j].0;
            assert(path::path_before(x, y));
            if x == y {
                assert(path::path_before(x, x));
            }
            if below(y, x) {
                lemma_longer(y, x);
                lemma_prefix(y, x);
                order::lemma_lex_extension(y, x, path::part_before());
                assert(path::path_before(y, x));
                assert(path::path_before(x, x));
            }
            if below(x, y) {
                assert(b.contains_key(x) && b.contains_key(y));
                lemma_fits_dir(b[x], x, d);
                assert(!files::blocked(b, x));
            }
        }
    }
    assert forall|i: int| 0 <= i < list.len() implies room(a, t, d, (#[trigger] list[i]).0, false) by {}
    let merged = files::placed_all(a, list);
    let u = lemma_place_all(a, t, d, list, false);
    let n = choose|n: nat| #[trigger] files::unseal_steps(merged, n) == done;
    let v = lemma_steps(merged, u, d, n);
    assert(has_file(done, q) <==> has_file(merged, q));
    assert(has_file(merged, q) <==> has_file(a, q) || list_brings(list, q));
    if list_brings(list, q) {
        let i = choose|i: int| 0 <= i < list.len() && brings((#[trigger] list[i]).1, list[i].0, q);
        assert(file_from(b, list[i].0, q));
    }
    if has_file(b, q) {
        let p = choose|p: Seq<Part>| file_from(b, p, q);
        let i = choose|i: int| 0 <= i < list.len() && (#[trigger] list[i]).0 == p;
        assert(brings(list[i].1, list[i].0, q));
    }
}

/// Merging two packages keeps the files of both and makes up none, as long as the packages agree
/// on what is a directory.  The merged package is again one without blocked directories whose
/// entries are listed at the paths that they are known by.
pub proof fn law_union_keeps_files(
    a: Map<Seq<Part>, Item>,
    b: Map<Seq<Part>, Item>,
    list: Seq<(Seq<Part>, Item)>,
    done: Map<Seq<Part>, Item>,
    q: Seq<Part>,
)
    requires
        files::unblocked(a),
        files::unblocked(b),
        own_paths(a),
        own_paths(b),
        same_kinds(a, b),
        loaded::is_listing(b, list),
        files::files_united(a, list, done),
    ensures
        has_file(done, q) <==> has_file(a, q) || has_file(b, q),
        files::unblocked(done),
        own_paths(done),
{
    let d = |x: Seq<Part>| has_dir(a, x) || has_dir(b, x);
    assert(agrees(a, d)) by {
        assert forall|p: Seq<Part>, x: Seq<Part>|
            a.contains_key(p) && #[trigger] leads_to(a[p], p, x) implies files::is_dir(
            a[p].source,
            x,
        ) == d(x) by {
            if has_dir(a, x) {
                let r = choose|r: Seq<Part>| #[trigger]
                    a.contains_key(r) && leads_to(a[r], r, x) && files::is_dir(a[r].source, x);
                if p.len() <= r.len() {
                    lemma_one_entry(a, p, r, x);
                } else {
                    lemma_one_entry(a, r, p, x);
                }
            }
        }
    }
    assert(agrees(b, d)) by {
        assert forall|p: Seq<Part>, x: Seq<Part>|
            b.contains_key(p) && #[trigger] leads_to(b[p], p, x) implies files::is_dir(
            b[p].source,
            x,
        ) == d(x) by {
            if has_dir(b, x) {
                let r = choose|r: Seq<Part>| #[trigger]
                    b.contains_key(r) && leads_to(b[r], r, x) && files::is_dir(b[r].source, x);
                if p.len() <= r.len() {
                    lemma_one_entry(b, p, r, x);
                } else {
                    lemma_one_entry(b, r, p, x);
                }
            }
        }
    }
    lemma_union(a, b, list, done, d, q);
}

} // verus!
