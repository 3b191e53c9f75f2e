//! The lock file: the revision that each repository is locked at.

use crate::order;
use crate::order::{Key, SortedMap};
use crate::repo;
use crate::scheduler::{Rev, Revision};
use crate::text;
use vstd::prelude::*;

verus! {

/// The kind of a locked resource.
#[derive(Clone, Copy, Debug, PartialEq, Eq, Structural)]
pub enum LockedResourceType {
    Git,
}

/// A resource that is locked at a revision.
#[derive(Debug)]
pub struct LockedResource {
    pub kind: LockedResourceType,
    pub rev: String,
}

/// A lock file.
pub struct LockFile {
    /// The version of the format.
    pub version: String,
    /// The locked resources by repository.
    pub locked: SortedMap<String, LockedResource>,
}

/// The revision of each repository.
pub open spec fn lock_map(m: SortedMap<String, LockedResource>) -> Map<Seq<char>, Seq<char>> {
    Map::new(|k: Seq<char>| m.has(k), |k: Seq<char>| m.at(k).rev@)
}

/// Two keys of a lock file name one repository, at different revisions.
#[derive(Debug)]
pub struct LockConflict {
    pub canonical: String,
    pub rev_a: String,
    pub key_a: String,
    pub rev_b: String,
    pub key_b: String,
}

impl LockConflict {
    /// The message for a user.
    pub fn message(&self) -> (message: String)
        ensures
            message@ == "Conflicting revisions for "@ + self.canonical@ + ": "@ + self.rev_a@
                + " (from lock key "@ + text::quoted_text(self.key_a@) + ") vs "@ + self.rev_b@
                + " (from lock key "@ + text::quoted_text(self.key_b@) + ")"@,
    {
        let mut message = String::from_str("Conflicting revisions for ");
        message.append(self.canonical.as_str());
        message.append(": ");
        message.append(self.rev_a.as_str());
        message.append(" (from lock key ");
        message.append(text::quoted(self.key_a.as_str()).as_str());
        message.append(") vs ");
        message.append(self.rev_b.as_str());
        message.append(" (from lock key ");
        message.append(text::quoted(self.key_b.as_str()).as_str());
        message.append(")");
        message
    }
}

/// Two entries name one repository.
pub open spec fn same_repo(m: SortedMap<String, LockedResource>, i: int, j: int) -> bool {
    repo::canonical_key(m.keys()[i]) == repo::canonical_key(m.keys()[j])
}

/// Two entries name one repository, at different revisions.
pub open spec fn clash(m: SortedMap<String, LockedResource>, i: int, j: int) -> bool {
    same_repo(m, i, j) && m.values()[i].rev@ != m.values()[j].rev@
}

/// The entries before `n` agree.
pub open spec fn agree(m: SortedMap<String, LockedResource>, n: int) -> bool {
    forall|i: int, j: int| 0 <= i < j < n ==> !#[trigger] clash(m, i, j)
}

/// `i` is the first entry of its repository.
pub open spec fn first_of_repo(m: SortedMap<String, LockedResource>, i: int) -> bool {
    forall|k: int| 0 <= k < i ==> !#[trigger] same_repo(m, k, i)
}

/// The conflict is between entries `i` and `j`.
pub open spec fn conflict_at(
    c: LockConflict,
    m: SortedMap<String, LockedResource>,
    i: int,
    j: int,
) -> bool {
    &&& 0 <= i < j < m.keys().len()
    &&& agree(m, j)
    &&& clash(m, i, j)
    &&& first_of_repo(m, i)
    &&& c.canonical@ == repo::canonical_key(m.keys()[j])
    &&& c.rev_a@ == m.values()[i].rev@
    &&& c.key_a@ == m.keys()[i]
    &&& c.rev_b@ == m.values()[j].rev@
    &&& c.key_b@ == m.keys()[j]
}

/// The conflict is the first that there is.
pub open spec fn is_first_conflict(c: LockConflict, m: SortedMap<String, LockedResource>) -> bool {
    exists|i: int, j: int| #[trigger] conflict_at(c, m, i, j)
}

/// The first `n` entries under the identities of their repositories.
pub open spec fn is_normalized(
    done: SortedMap<String, LockedResource>,
    m: SortedMap<String, LockedResource>,
    n: int,
) -> bool {
    &&& forall|k: Seq<char>| #[trigger]
        done.has(k) <==> exists|i: int| 0 <= i < n && repo::canonical_key(#[trigger] m.keys()[i]) == k
    &&& forall|i: int|
        0 <= i < n ==> done.at(repo::canonical_key(#[trigger] m.keys()[i])).rev@
            == m.values()[i].rev@
}

/// The places of the first entries.
spec fn is_firsts(
    firsts: SortedMap<String, usize>,
    m: SortedMap<String, LockedResource>,
    n: int,
) -> bool {
    &&& forall|k: Seq<char>| #[trigger]
        firsts.has(k) <==> exists|i: int| 0 <= i < n && repo::canonical_key(#[trigger] m.keys()[i]) == k
    &&& forall|k: Seq<char>| #[trigger]
        firsts.has(k) ==> {
            let i = firsts.at(k) as int;
            &&& 0 <= i < n
            &&& repo::canonical_key(m.keys()[i]) == k
            &&& first_of_repo(m, i)
        }
}

impl LockFile {
    /// Puts every entry under the identity of its repository.  Entries of one repository are one;
    /// if they differ, that is an error.
    pub fn normalize_keys(self) -> (normal: Result<LockFile, LockConflict>)
        requires
            self.locked.wf(),
        ensures
            match normal {
                Ok(file) => {
                    &&& file.locked.wf()
                    &&& file.version == self.version
                    &&& agree(self.locked, self.locked.keys().len() as int)
                    &&& is_normalized(
                        file.locked,
                        self.locked,
                        self.locked.keys().len() as int,
                    )
                },
                Err(c) => is_first_conflict(c, self.locked),
            },
    {
        let LockFile { version, locked } = self;
        let ghost m = locked;
        let n: usize = locked.len();
        let mut done: SortedMap<String, LockedResource> = SortedMap::new();
        let mut firsts: SortedMap<String, usize> = SortedMap::new();
        let mut j: usize = 0;
        while j < n
            invariant
                j <= n,
                m == locked,
                m.wf(),
                m == self.locked,
                n == m.keys().len(),
                done.wf(),
                firsts.wf(),
                agree(m, j as int),
                is_normalized(done, m, j as int),
                is_firsts(firsts, m, j as int),
            decreases n - j,
        {
            let raw_key = locked.key_at(j);
            let res = locked.value_at(j);
            let canon = repo::canonicalize_lock_key(raw_key.as_str());
            let ghost k0 = canon@;
            let ghost old_done = done;
            let ghost old_firsts = firsts;
            assert(m.values()[j as int] == *res);
            match firsts.get(&canon) {
                Some(place) => {
                    let i = *place;
                    assert(firsts.has(k0));
                    assert(same_repo(m, i as int, j as int));
                    let existing = locked.value_at(i);
                    if !text::same(existing.rev.as_str(), res.rev.as_str()) {
                        let c = LockConflict {
                            canonical: canon,
                            rev_a: existing.rev.clone(),
                            key_a: locked.key_at(i).clone(),
                            rev_b: res.rev.clone(),
                            key_b: raw_key.clone(),
                        };
                        proof {
                            assert(clash(m, i as int, j as int));
                            assert(c.canonical@ == repo::canonical_key(m.keys()[j as int]));
                            assert(c.key_a@ == m.keys()[i as int]);
                            assert(c.key_b@ == m.keys()[j as int]);
                            assert(first_of_repo(m, i as int));
                            assert(conflict_at(c, m, i as int, j as int));
                            assert(is_first_conflict(c, m));
                        }
                        return Err(c);
                    }
                    proof {
                        assert(done.at(k0).rev@ == m.values()[i as int].rev@);
                        lemma_next(m, j as int, i as int);
                        lemma_known(old_done, old_firsts, m, j as int);
                    }
                },
                None => {
                    assert(!firsts.has(k0));
                    let copy = LockedResource { kind: res.kind, rev: res.rev.clone() };
                    let ghost added = copy;
                    firsts.insert(canon.clone(), j);
                    done.insert(canon, copy);
                    proof {
                        assert forall|i: int| 0 <= i < j implies !#[trigger] same_repo(
                            m,
                            i,
                            j as int,
                        ) by {
                            if same_repo(m, i, j as int) {
                                assert(repo::canonical_key(m.keys()[i]) == k0);
                                assert(old_firsts.has(k0));
                            }
                        }
                        assert forall|a: int, b: int| 0 <= a < b < j + 1 implies !#[trigger] clash(
                            m,
                            a,
                            b,
                        ) by {
                            if b == j {
                                assert(!same_repo(m, a, j as int));
                            }
                        }
                        lemma_added(old_done, done, old_firsts, firsts, m, j as int, k0);
                    }
                },
            }
            j = j + 1;
        }
        Ok(LockFile { version, locked: done })
    }
}

proof fn lemma_next(m: SortedMap<String, LockedResource>, j: int, i: int)
    requires
        agree(m, j),
        0 <= i < j,
        same_repo(m, i, j),
        m.values()[i].rev@ == m.values()[j].rev@,
    ensures
        agree(m, j + 1),
{
    assert forall|a: int, b: int| 0 <= a < b < j + 1 implies !#[trigger] clash(m, a, b) by {
        if b == j && clash(m, a, j) {
            assert(same_repo(m, a, j));
            if a < i {
                assert(clash(m, a, i));
            } else if i < a {
                assert(clash(m, i, a));
            }
        }
    }
}

proof fn lemma_known(
    done: SortedMap<String, LockedResource>,
    firsts: SortedMap<String, usize>,
    m: SortedMap<String, LockedResource>,
    j: int,
)
    requires
        is_normalized(done, m, j),
        is_firsts(firsts, m, j),
        firsts.has(repo::canonical_key(m.keys()[j])),
        agree(m, j + 1),
    ensures
        is_normalized(done, m, j + 1),
        is_firsts(firsts, m, j + 1),
{
    let k0 = repo::canonical_key(m.keys()[j]);
    let i = firsts.at(k0) as int;
    assert(same_repo(m, i, j));
    assert(!clash(m, i, j));
    assert forall|k: Seq<char>| #[trigger] done.has(k) <==> exists|x: int|
        0 <= x < j + 1 && repo::canonical_key(#[trigger] m.keys()[x]) == k by {
        if done.has(k) {
            let x = choose|x: int| 0 <= x < j && repo::canonical_key(#[trigger] m.keys()[x]) == k;
            assert(repo::canonical_key(m.keys()[x]) == k);
        }
        if exists|x: int| 0 <= x < j + 1 && repo::canonical_key(#[trigger] m.keys()[x]) == k {
            let x = choose|x: int|
                0 <= x < j + 1 && repo::canonical_key(#[trigger] m.keys()[x]) == k;
            if x == j {
                assert(repo::canonical_key(m.keys()[i]) == k);
            }
        }
    }
    assert forall|k: Seq<char>| #[trigger] firsts.has(k) <==> exists|x: int|
        0 <= x < j + 1 && repo::canonical_key(#[trigger] m.keys()[x]) == k by {
        if firsts.has(k) {
            let x = choose|x: int| 0 <= x < j && repo::canonical_key(#[trigger] m.keys()[x]) == k;
            assert(repo::canonical_key(m.keys()[x]) == k);
        }
        if exists|x: int| 0 <= x < j + 1 && repo::canonical_key(#[trigger] m.keys()[x]) == k {
            let x = choose|x: int|
                0 <= x < j + 1 && repo::canonical_key(#[trigger] m.keys()[x]) == k;
            if x == j {
                assert(repo::canonical_key(m.keys()[i]) == k);
            }
        }
    }
    assert(done.at(repo::canonical_key(m.keys()[i])).rev@ == m.values()[i].rev@);
}

proof fn lemma_added(
    old_done: SortedMap<String, LockedResource>,
    done: SortedMap<String, LockedResource>,
    old_firsts: SortedMap<String, usize>,
    firsts: SortedMap<String, usize>,
    m: SortedMap<String, LockedResource>,
    j: int,
    k0: Seq<char>,
)
    requires
        0 <= j,
        k0 == repo::canonical_key(m.keys()[j]),
        is_normalized(old_done, m, j),
        is_firsts(old_firsts, m, j),
        !old_firsts.has(k0),
        forall|k: Seq<char>| #[trigger] done.has(k) <==> old_done.has(k) || k == k0,
        forall|k: Seq<char>| k != k0 && #[trigger] old_done.has(k) ==> done.at(k) == old_done.at(k),
        done.at(k0).rev@ == m.values()[j].rev@,
        forall|k: Seq<char>| #[trigger] firsts.has(k) <==> old_firsts.has(k) || k == k0,
        forall|k: Seq<char>| k != k0 && #[trigger] old_firsts.has(k) ==> firsts.at(k)
            == old_firsts.at(k),
        firsts.at(k0) == j,
        first_of_repo(m, j),
    ensures
        is_normalized(done, m, j + 1),
        is_firsts(firsts, m, j + 1),
{
    assert(repo::canonical_key(m.keys()[j]) == k0);
    assert forall|k: Seq<char>| #[trigger] done.has(k) <==> exists|x: int|
        0 <= x < j + 1 && repo::canonical_key(#[trigger] m.keys()[x]) == k by {
        if old_done.has(k) {
            let x = choose|x: int| 0 <= x < j && repo::canonical_key(#[trigger] m.keys()[x]) == k;
            assert(repo::canonical_key(m.keys()[x]) == k);
        }
    }
    assert forall|i: int| 0 <= i < j + 1 implies done.at(
        repo::canonical_key(#[trigger] m.keys()[i]),
    ).rev@ == m.values()[i].rev@ by {
        if i < j {
            let k = repo::canonical_key(m.keys()[i]);
            assert(old_done.has(k));
            assert(old_firsts.has(k));
        }
    }
    assert forall|k: Seq<char>| #[trigger] firsts.has(k) <==> exists|x: int|
        0 <= x < j + 1 && repo::canonical_key(#[trigger] m.keys()[x]) == k by {
        if old_firsts.has(k) {
            let x = choose|x: int| 0 <= x < j && repo::canonical_key(#[trigger] m.keys()[x]) == k;
            assert(repo::canonical_key(m.keys()[x]) == k);
        }
    }
    assert forall|k: Seq<char>| #[trigger] firsts.has(k) implies ({
        let i = firsts.at(k) as int;
        &&& 0 <= i < j + 1
        &&& repo::canonical_key(m.keys()[i]) == k
        &&& first_of_repo(m, i)
    }) by {
        if k != k0 {
            assert(old_firsts.has(k));
        }
    }
}

/// Without these repositories.
pub open spec fn without(m: Map<Seq<char>, Seq<char>>, gone: Seq<Seq<char>>) -> Map<
    Seq<char>,
    Seq<char>,
>
    decreases gone.len(),
{
    if gone.len() == 0 {
        m
    } else {
        without(m, gone.drop_last()).remove(gone.last())
    }
}

/// With these revisions.
pub open spec fn with_revs(
    m: Map<Seq<char>, Seq<char>>,
    infos: Seq<(Seq<char>, Seq<char>)>,
) -> Map<Seq<char>, Seq<char>>
    decreases infos.len(),
{
    if infos.len() == 0 {
        m
    } else {
        with_revs(m, infos.drop_last()).insert(infos.last().0, infos.last().1)
    }
}

/// The locked revisions after a run: those of plugins that are left out are gone, those that were
/// resolved are noted, and the rest stays.
pub fn update_locked(
    locked: SortedMap<String, LockedResource>,
    remove_canons: &Vec<String>,
    lock_infos: &Vec<(String, String)>,
) -> (updated: SortedMap<String, LockedResource>)
    requires
        locked.wf(),
    ensures
        updated.wf(),
        lock_map(updated) == with_revs(
            without(lock_map(locked), text::strings(remove_canons@)),
            lock_infos@.map_values(|e: (String, String)| (e.0@, e.1@)),
        ),
{
    let ghost m = lock_map(locked);
    let mut map = locked;
    let ghost gone = text::strings(remove_canons@);
    let mut i: usize = 0;
    assert(gone.take(0) =~= Seq::<Seq<char>>::empty());
    while i < remove_canons.len()
        invariant
            i <= remove_canons@.len(),
            gone == text::strings(remove_canons@),
            map.wf(),
            lock_map(map) == without(m, gone.take(i as int)),
        decreases remove_canons@.len() - i,
    {
        let ghost before = map;
        proof {
            assert(gone.take(i as int + 1).drop_last() =~= gone.take(i as int));
            assert(gone.take(i as int + 1).last() == remove_canons@[i as int]@);
        }
        map.remove(&remove_canons[i]);
        assert(lock_map(map) =~= lock_map(before).remove(remove_canons@[i as int]@));
        i = i + 1;
    }
    assert(gone.take(i as int) =~= gone);
    let ghost base = without(m, gone);
    let ghost infos = lock_infos@.map_values(|e: (String, String)| (e.0@, e.1@));
    let mut i: usize = 0;
    assert(infos.take(0) =~= Seq::<(Seq<char>, Seq<char>)>::empty());
    while i < lock_infos.len()
        invariant
            i <= lock_infos@.len(),
            infos == lock_infos@.map_values(|e: (String, String)| (e.0@, e.1@)),
            map.wf(),
            lock_map(map) == with_revs(base, infos.take(i as int)),
        decreases lock_infos@.len() - i,
    {
        let ghost before = map;
        let url = lock_infos[i].0.clone();
        let rev = lock_infos[i].1.clone();
        let ghost k = url@;
        let ghost r = rev@;
        proof {
            assert(infos.take(i as int + 1).drop_last() =~= infos.take(i as int));
            assert(infos.take(i as int + 1).last() == (k, r));
        }
        map.insert(url, LockedResource { kind: LockedResourceType::Git, rev });
        assert(lock_map(map) =~= lock_map(before).insert(k, r));
        i = i + 1;
    }
    assert(infos.take(i as int) =~= infos);
    map
}

/// What no run touched stays locked as it was.
pub proof fn law_untouched_stays(
    m: Map<Seq<char>, Seq<char>>,
    gone: Seq<Seq<char>>,
    infos: Seq<(Seq<char>, Seq<char>)>,
    k: Seq<char>,
)
    requires
        !gone.contains(k),
        forall|i: int| 0 <= i < infos.len() ==> (#[trigger] infos[i]).0 != k,
    ensures
        with_revs(without(m, gone), infos).contains_key(k) == m.contains_key(k),
        m.contains_key(k) ==> with_revs(without(m, gone), infos)[k] == m[k],
    decreases gone.len() + infos.len(),
{
    if infos.len() > 0 {
        let front = infos.drop_last();
        assert forall|i: int| 0 <= i < front.len() implies (#[trigger] front[i]).0 != k by {
            assert(infos[i] == front[i]);
        }
        assert(infos[infos.len() - 1].0 != k);
        law_untouched_stays(m, gone, front, k);
    } else if gone.len() > 0 {
        let front = gone.drop_last();
        assert(!front.contains(k)) by {
            if front.contains(k) {
                let i = front.index_of(k);
                assert(gone[i] == k);
            }
        }
        assert(gone[gone.len() - 1] != k) by {
            assert(gone.contains(gone[gone.len() - 1]));
        }
        law_untouched_stays(m, front, infos, k);
        assert(with_revs(without(m, gone), infos) == without(m, gone));
        assert(with_revs(without(m, front), infos) == without(m, front));
    }
}

/// A repository that is left out is locked no more, unless it was resolved.
pub proof fn law_left_out_is_gone(
    m: Map<Seq<char>, Seq<char>>,
    gone: Seq<Seq<char>>,
    infos: Seq<(Seq<char>, Seq<char>)>,
    k: Seq<char>,
)
    requires
        gone.contains(k),
        forall|i: int| 0 <= i < infos.len() ==> (#[trigger] infos[i]).0 != k,
    ensures
        !with_revs(without(m, gone), infos).contains_key(k),
    decreases gone.len() + infos.len(),
{
    if infos.len() > 0 {
        let front = infos.drop_last();
        assert forall|i: int| 0 <= i < front.len() implies (#[trigger] front[i]).0 != k by {
            assert(infos[i] == front[i]);
        }
        assert(infos[infos.len() - 1].0 != k);
        law_left_out_is_gone(m, gone, front, k);
    } else {
        let front = gone.drop_last();
        assert(with_revs(without(m, gone), infos) == without(m, gone));
        if gone.last() != k {
            assert(front.contains(k)) by {
                let i = gone.index_of(k);
                assert(front[i] == k);
            }
            law_left_out_is_gone(m, front, infos, k);
            assert(with_revs(without(m, front), infos) == without(m, front));
        }
    }
}

/// A repository is locked at the revision that was resolved for it last, also if it was left out
/// or locked at another one.
pub proof fn law_last_resolved_is_locked(
    m: Map<Seq<char>, Seq<char>>,
    gone: Seq<Seq<char>>,
    infos: Seq<(Seq<char>, Seq<char>)>,
    i: int,
)
    requires
        0 <= i < infos.len(),
        forall|j: int| i < j < infos.len() ==> (#[trigger] infos[j]).0 != infos[i].0,
    ensures
        with_revs(without(m, gone), infos).contains_key(infos[i].0),
        with_revs(without(m, gone), infos)[infos[i].0] == infos[i].1,
    decreases infos.len(),
{
    if i < infos.len() - 1 {
        let front = infos.drop_last();
        assert(front[i] == infos[i]);
        assert(infos[infos.len() - 1].0 != infos[i].0);
        assert forall|j: int| i < j < front.len() implies (#[trigger] front[j]).0 != front[i].0 by {
            assert(infos[j] == front[j]);
        }
        law_last_resolved_is_locked(m, gone, front, i);
    }
}

/// Keys of one repository at different revisions cannot be put under its identity.
pub proof fn law_clashes_are_refused(
    m: SortedMap<String, LockedResource>,
    done: SortedMap<String, LockedResource>,
    i: int,
    j: int,
)
    requires
        0 <= i < m.keys().len(),
        0 <= j < m.keys().len(),
        repo::canonical_key(m.keys()[i]) == repo::canonical_key(m.keys()[j]),
        m.values()[i].rev@ != m.values()[j].rev@,
    ensures
        !is_normalized(done, m, m.keys().len() as int),
        !agree(m, m.keys().len() as int),
{
    if is_normalized(done, m, m.keys().len() as int) {
        assert(done.at(repo::canonical_key(m.keys()[i])).rev@ == m.values()[i].rev@);
        assert(done.at(repo::canonical_key(m.keys()[j])).rev@ == m.values()[j].rev@);
    }
    assert(clash(m, i, j));
    assert(clash(m, j, i));
}

/// Every repository of a lock file is found under its identity, at its revision.
pub proof fn law_found_by_identity(
    m: SortedMap<String, LockedResource>,
    done: SortedMap<String, LockedResource>,
    i: int,
)
    requires
        is_normalized(done, m, m.keys().len() as int),
        0 <= i < m.keys().len(),
    ensures
        lock_map(done).contains_key(repo::canonical_key(m.keys()[i])),
        lock_map(done)[repo::canonical_key(m.keys()[i])] == m.values()[i].rev@,
{
    assert(done.has(repo::canonical_key(m.keys()[i])));
}

/// Normalizing the keys twice is normalizing them once: unless an identity reads as an owner and a
/// repository at GitHub, the second time changes nothing, and finds no conflict.
pub proof fn law_normalizing_twice(
    m: SortedMap<String, LockedResource>,
    done: SortedMap<String, LockedResource>,
    again: SortedMap<String, LockedResource>,
)
    requires
        done.wf(),
        is_normalized(done, m, m.keys().len() as int),
        forall|k: Seq<char>| #[trigger] done.has(k) ==> !repo::is_shorthand(k),
        is_normalized(again, done, done.keys().len() as int),
    ensures
        agree(done, done.keys().len() as int),
        lock_map(again) == lock_map(done),
{
    let keys = done.keys();
    assert forall|i: int| 0 <= i < keys.len() implies repo::canonical_key(#[trigger] keys[i])
        == keys[i] by {
        assert(done.has(keys[i]));
        let j = choose|j: int|
            0 <= j < m.keys().len() && repo::canonical_key(#[trigger] m.keys()[j]) == keys[i];
        repo::laws::law_identity_of_an_identity(m.keys()[j]);
    }
    order::lemma_ascending_distinct::<String>(keys);
    assert forall|i: int, j: int| 0 <= i < j < keys.len() implies !#[trigger] clash(done, i, j) by {
        assert(keys[i] != keys[j]);
    }
    assert forall|k: Seq<char>| #[trigger] again.has(k) <==> done.has(k) by {
        if again.has(k) {
            let i = choose|i: int|
                0 <= i < keys.len() && repo::canonical_key(#[trigger] keys[i]) == k;
            assert(keys[i] == k);
        }
        if done.has(k) {
            let i = choose|i: int| 0 <= i < keys.len() && keys[i] == k;
            assert(repo::canonical_key(keys[i]) == k);
        }
    }
    assert forall|k: Seq<char>| done.has(k) implies #[trigger] again.at(k).rev@ == done.at(k).rev@ by {
        let i = keys.index_of(k);
        assert(keys[i] == k);
        assert(again.at(repo::canonical_key(keys[i])).rev@ == done.values()[i].rev@);
    }
    assert(lock_map(again) =~= lock_map(done));
}

/// There is no locked revision for a repository that must have one.
#[derive(Debug)]
pub struct MissingLock {
    pub canonical: String,
}

impl MissingLock {
    /// The message for a user.
    pub fn message(&self) -> (message: String)
        ensures
            message@ == "Missing locked revision for "@ + self.canonical@,
    {
        String::from_str("Missing locked revision for ").concat(self.canonical.as_str())
    }
}

/// What is known of a revision, or the repository that must have a locked one and has none.
pub open spec fn fixed_view(fixed: Result<Option<String>, MissingLock>) -> Result<
    Option<Seq<char>>,
    Seq<char>,
> {
    match fixed {
        Ok(found) => Ok(text::optional_string(found)),
        Err(e) => Err(e.canonical@),
    }
}

/// The revision that a plugin is loaded at, if one is fixed.
pub open spec fn fixed_rev(
    canonical: Option<Seq<char>>,
    locked: bool,
    m: Map<Seq<char>, Seq<char>>,
    rev: Revision,
) -> Result<Option<Seq<char>>, Seq<char>> {
    match rev {
        Revision::Resolved(oid) => Ok(oid),
        Revision::Auto => match canonical {
            Some(name) => if !locked {
                Ok(None)
            } else if m.contains_key(name) {
                Ok(Some(m[name]))
            } else {
                Err(name)
            },
            None => Ok(None),
        },
    }
}

/// A resolved revision stands.  In a locked run a repository is loaded at the revision that it is
/// locked at, and at no other, and refused without one; in any other run nothing is fixed.
pub proof fn law_fixed_rev(
    name: Seq<char>,
    m: Map<Seq<char>, Seq<char>>,
    oid: Option<Seq<char>>,
    locked: bool,
)
    ensures
        fixed_rev(Some(name), locked, m, Revision::Resolved(oid)) == Ok::<_, Seq<char>>(oid),
        m.contains_key(name) ==> fixed_rev(Some(name), true, m, Revision::Auto) == Ok::<
            _,
            Seq<char>,
        >(Some(m[name])),
        !m.contains_key(name) ==> fixed_rev(Some(name), true, m, Revision::Auto) == Err::<
            Option<Seq<char>>,
            _,
        >(name),
        fixed_rev(Some(name), false, m, Revision::Auto) == Ok::<_, Seq<char>>(None::<Seq<char>>),
        fixed_rev(None, locked, m, Revision::Auto) == Ok::<_, Seq<char>>(None::<Seq<char>>),
{
}

/// The revision that a plugin is loaded at, if one is fixed: a resolved one, or in a locked run
/// that of the lock file, which must have one.
pub fn expand_rev(
    canonical: &Option<String>,
    locked: bool,
    locked_map: &SortedMap<String, LockedResource>,
    rev: Rev,
) -> (fixed: Result<Option<String>, MissingLock>)
    requires
        locked_map.wf(),
    ensures
        match rev {
            Rev::Resolved(oid) => fixed == Ok::<Option<String>, MissingLock>(oid),
            Rev::Auto => match *canonical {
                Some(name) => if !locked {
                    fixed == Ok::<Option<String>, MissingLock>(None)
                } else {
                    match fixed {
                        Ok(found) => lock_map(*locked_map).contains_key(name@)
                            && text::optional_string(found) == Some(
                            lock_map(*locked_map)[name@],
                        ),
                        Err(e) => !lock_map(*locked_map).contains_key(name@) && e.canonical@
                            == name@,
                    }
                },
                None => fixed == Ok::<Option<String>, MissingLock>(None),
            },
        },
        fixed_view(fixed) == fixed_rev(
            text::optional_string(*canonical),
            locked,
            lock_map(*locked_map),
            rev@,
        ),
{
    match rev {
        Rev::Resolved(oid) => Ok(oid),
        Rev::Auto => match canonical {
            Some(name) => {
                if !locked {
                    return Ok(None);
                }
                match locked_map.get(name) {
                    Some(entry) => {
                        assert(lock_map(*locked_map).contains_key(name@));
                        Ok(Some(entry.rev.clone()))
                    },
                    None => {
                        assert(!lock_map(*locked_map).contains_key(name@));
                        Err(MissingLock { canonical: name.clone() })
                    },
                }
            },
            None => Ok(None),
        },
    }
}

} // verus!
