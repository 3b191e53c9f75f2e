//! Any two packages can be united.

use crate::files;
use crate::files::Item;
use crate::loaded;
use crate::order;
use crate::order::Key;
use crate::path;
use crate::path::{Part, Path};
use vstd::prelude::*;

verus! {

proof fn lemma_map_universe(m: Map<Seq<Part>, Item>) -> (u: Set<Seq<Part>>)
    requires
        m.dom().finite(),
    ensures
        u.finite(),
        files::within(m, u),
    decreases m.dom().len(),
{
    if m.dom().len() == 0 {
        assert(m.dom() =~= Set::<Seq<Part>>::empty());
        assert forall|p: Seq<Part>| !#[trigger] m.contains_key(p) by {
            assert(!m.dom().contains(p));
        }
        Set::empty()
    } else {
        let p = m.dom().choose();
        let rest = m.remove(p);
        let inner = lemma_map_universe(rest);
        files::lemma_tree_finite(m[p].source);
        let u = inner.insert(p).union(files::tree(m[p].source));
        assert forall|q: Seq<Part>| #[trigger] m.contains_key(q) implies u.contains(q)
            && files::tree(m[q].source).subset_of(u) by {
            if q != p {
                assert(rest.contains_key(q));
                assert(rest[q] == m[q]);
            }
        }
        u
    }
}

proof fn lemma_least(s: Set<Seq<Part>>) -> (p: Seq<Part>)
    requires
        s.finite(),
        s.len() > 0,
    ensures
        s.contains(p),
        forall|q: Seq<Part>| #[trigger] s.contains(q) ==> q == p || path::path_before(p, q),
    decreases s.len(),
{
    order::lemma_key_order::<Path>();
    let q = s.choose();
    let rest = s.remove(q);
    if rest.len() == 0 {
        assert forall|x: Seq<Part>| #[trigger] s.contains(x) implies x == q by {
            if x != q {
                assert(rest.contains(x));
            }
        }
        q
    } else {
        let r = lemma_least(rest);
        assert(<Path as Key>::before(q, r) || <Path as Key>::before(r, q) || q == r);
        if path::path_before(q, r) {
            assert forall|x: Seq<Part>| #[trigger] s.contains(x) implies x == q || path::path_before(
                q,
                x,
            ) by {
                if x != q {
                    assert(rest.contains(x));
                    if x != r {
                        assert(<Path as Key>::before(q, r) && <Path as Key>::before(r, x));
                    }
                }
            }
            q
        } else {
            assert forall|x: Seq<Part>| #[trigger] s.contains(x) implies x == r || path::path_before(
                r,
                x,
            ) by {
                if x != q {
                    assert(rest.contains(x));
                }
            }
            r
        }
    }
}

proof fn lemma_first_blocked(m: Map<Seq<Part>, Item>, u: Set<Seq<Part>>) -> (p: Seq<Part>)
    requires
        u.finite(),
        files::within(m, u),
        !files::unblocked(m),
    ensures
        files::first_blocked(m, p),
{
    let all = u.filter(|q: Seq<Part>| files::blocked(m, q));
    let q = choose|q: Seq<Part>| #[trigger] files::blocked(m, q);
    assert(u.contains(q));
    assert(all.contains(q));
    let p = lemma_least(all);
    assert forall|x: Seq<Part>| #[trigger] files::blocked(m, x) implies x == p || path::path_before(
        p,
        x,
    ) by {
        assert(u.contains(x));
        assert(all.contains(x));
    }
    p
}

proof fn lemma_steps_shift(m: Map<Seq<Part>, Item>, p: Seq<Part>, n: nat)
    requires
        files::first_blocked(m, p),
    ensures
        files::unseal_steps(files::unsealed(m, p), n) == files::unseal_steps(m, n + 1),
    decreases n,
{
    if n == 0 {
        let chosen = choose|q: Seq<Part>| files::first_blocked(m, q);
        files::lemma_first_blocked_unique(m, p, chosen);
        assert(files::unseal_steps(m, 0) == m);
        assert(files::unseal_steps(m, 1) == files::unsealed(m, chosen));
    } else {
        lemma_steps_shift(m, p, (n - 1) as nat);
        assert((n - 1) as nat + 1 == n);
        assert((n + 1 - 1) as nat == n);
    }
}

proof fn lemma_normal_exists(
    m: Map<Seq<Part>, Item>,
    u: Set<Seq<Part>>,
    last: Option<Seq<Part>>,
) -> (done: Map<Seq<Part>, Item>)
    requires
        u.finite(),
        files::within(m, u),
        last matches Some(before) ==> forall|q: Seq<Part>| #[trigger]
            files::blocked(m, q) ==> path::path_before(before, q),
    ensures
        files::normal_form(m, done),
        files::within(done, u),
    decreases files::left_after(u, last),
{
    if files::unblocked(m) {
        assert(files::unseal_steps(m, 0) == m);
        m
    } else {
        let p = lemma_first_blocked(m, u);
        assert(files::blocked(m, p));
        assert(u.contains(p));
        files::lemma_left_shrinks(u, last, p);
        let next = files::unsealed(m, p);
        assert(files::within(next, u)) by {
            let list = files::child_listing(m[p], p);
            let rest = m.remove(p);
            assert forall|q: Seq<Part>| #[trigger] rest.contains_key(q) implies u.contains(q)
                && files::tree(rest[q].source).subset_of(u) by {
                assert(m.contains_key(q));
            }
            files::laws::lemma_names(m[p].source, p);
            let names = files::child_names(m[p].source, p);
            assert forall|i: int| 0 <= i < list.len() implies u.contains((#[trigger] list[i]).0)
                && files::tree(list[i].1.source).subset_of(u) by {
                let child = p.push(Part::Normal(names[i]));
                assert(list[i].0 == child);
                assert(names.contains(names[i]));
                assert(child.drop_last() =~= p);
                assert(child.last() == Part::Normal(names[i]));
                assert(files::tree(m[p].source).contains(child));
            }
            files::lemma_placed_all_within(rest, list, u);
        }
        assert forall|q: Seq<Part>| #[trigger] files::blocked(next, q) implies path::path_before(p, q) by {
            files::lemma_next_blocked(m, p, q);
        }
        let done = lemma_normal_exists(next, u, Some(p));
        let n = choose|n: nat| #[trigger] files::unseal_steps(next, n) == done;
        lemma_steps_shift(m, p, n);
        assert(files::unseal_steps(m, n + 1) == done);
        done
    }
}

proof fn lemma_ascending_of(s: Set<Seq<Part>>) -> (list: Seq<Seq<Part>>)
    requires
        s.finite(),
    ensures
        order::ascending::<Path>(list),
        forall|p: Seq<Part>| #[trigger] list.contains(p) <==> s.contains(p),
    decreases s.len(),
{
    if s.len() == 0 {
        assert(s =~= Set::<Seq<Part>>::empty());
        Seq::empty()
    } else {
        let q = s.choose();
        let rest = lemma_ascending_of(s.remove(q));
        let list = order::lemma_with_member::<Path>(rest, q);
        assert forall|p: Seq<Part>| #[trigger] list.contains(p) <==> s.contains(p) by {
            assert(list.contains(p) <==> rest.contains(p) || p == q);
        }
        list
    }
}

proof fn lemma_listing_exists(m: Map<Seq<Part>, Item>)
    requires
        m.dom().finite(),
    ensures
        loaded::is_listing(m, loaded::map_listing(m)),
{
    let keys = lemma_ascending_of(m.dom());
    let list = keys.map_values(|p: Seq<Part>| (p, m[p]));
    assert(loaded::is_listing(m, list)) by {
        assert forall|i: int, j: int| 0 <= i < j < list.len() implies path::path_before(
            (#[trigger] list[i]).0,
            (#[trigger] list[j]).0,
        ) by {
            assert(<Path as Key>::before(keys[i], keys[j]));
        }
        assert forall|i: int| 0 <= i < list.len() implies m.contains_key((#[trigger] list[i]).0)
            && m[list[i].0] == list[i].1 by {
            assert(keys.contains(keys[i]));
        }
        assert forall|p: Seq<Part>| #[trigger] m.contains_key(p) implies exists|i: int|
            0 <= i < list.len() && (#[trigger] list[i]).0 == p by {
            assert(m.dom().contains(p));
            assert(keys.contains(p));
            let i = keys.index_of(p);
            assert(list[i].0 == p);
        }
    }
}

/// Any two packages have a union, which lists finitely many entries again.
pub proof fn law_union_exists(a: Map<Seq<Part>, Item>, b: Map<Seq<Part>, Item>)
    requires
        a.dom().finite(),
        b.dom().finite(),
    ensures
        loaded::is_listing(b, loaded::map_listing(b)),
        files::files_united(a, loaded::map_listing(b), loaded::union_map(a, b)),
        loaded::union_map(a, b).dom().finite(),
{
    lemma_listing_exists(b);
    let list = loaded::map_listing(b);
    let ua = lemma_map_universe(a);
    let ub = lemma_map_universe(b);
    let u = ua.union(ub);
    assert(files::within(a, u));
    assert forall|i: int| 0 <= i < list.len() implies u.contains((#[trigger] list[i]).0)
        && files::tree(list[i].1.source).subset_of(u) by {
        assert(b.contains_key(list[i].0));
    }
    files::lemma_placed_all_within(a, list, u);
    let m = files::placed_all(a, list);
    let done = lemma_normal_exists(m, u, None);
    assert(files::files_united(a, list, done));
    let chosen = loaded::union_map(a, b);
    assert(files::files_united(a, list, chosen));
    files::law_normal_form_unique(m, done, chosen);
    assert forall|p: Seq<Part>| #[trigger] done.dom().contains(p) implies u.contains(p) by {
        assert(done.contains_key(p));
    }
    vstd::set_lib::lemma_len_subset(done.dom(), u);
}

} // verus!
