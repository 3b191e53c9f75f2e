//! The results of loading.

use vstd::prelude::*;

verus! {

/// What became of a plugin.
pub struct Outcome<P> {
    /// The plugin, and the revision to lock its repository at.
    pub loaded: Option<(P, Option<(String, String)>)>,
    /// The repository whose lock is given up.
    pub canon_to_remove: Option<String>,
}

/// What became of a plugin when its late part ended.
pub open spec fn late_outcome<P>(
    loaded: Option<(P, Option<(String, String)>)>,
    canonical: Option<String>,
) -> Outcome<P> {
    Outcome {
        loaded,
        canon_to_remove: if loaded is None {
            canonical
        } else {
            None
        },
    }
}

/// What became of a plugin that ended with its early part.
pub open spec fn early_outcome<P, E>(ended: Option<Result<Option<String>, E>>) -> Result<
    Outcome<P>,
    E,
> {
    match ended {
        Some(Err(e)) => Err(e),
        Some(Ok(canonical)) => Ok(Outcome { loaded: None, canon_to_remove: canonical }),
        None => Ok(Outcome { loaded: None, canon_to_remove: None }),
    }
}

impl<P> Outcome<P> {
    /// What became of a plugin that is not there: the lock of its repository is given up.
    pub fn skipped(canonical: Option<String>) -> (outcome: Outcome<P>)
        ensures
            outcome == (Outcome::<P> { loaded: None, canon_to_remove: canonical }),
    {
        Outcome { loaded: None, canon_to_remove: canonical }
    }

    /// What became of a plugin when its late part ended.  Where nothing was loaded, the lock of
    /// its repository is given up.
    pub fn of_late(loaded: Option<(P, Option<(String, String)>)>, canonical: Option<String>) -> (outcome:
        Outcome<P>)
        ensures
            outcome == late_outcome(loaded, canonical),
    {
        match loaded {
            Some(loaded) => Outcome { loaded: Some(loaded), canon_to_remove: None },
            None => Outcome::skipped(canonical),
        }
    }

    /// What became of a plugin that ended with its early part: its error, or that it is not there.
    pub fn of_early<E>(ended: Option<Result<Option<String>, E>>) -> (outcome: Result<
        Outcome<P>,
        E,
    >)
        ensures
            outcome == early_outcome::<P, E>(ended),
    {
        match ended {
            Some(Err(e)) => Err(e),
            Some(Ok(canonical)) => Ok(Outcome::skipped(canonical)),
            None => Ok(Outcome::skipped(None)),
        }
    }
}

/// What became of all plugins.
pub struct Collected<P> {
    pub plugins: Vec<P>,
    pub lock_infos: Vec<(String, String)>,
    pub remove_canons: Vec<String>,
}

/// The loaded plugins.
pub open spec fn plugins_of<P>(list: Seq<Outcome<P>>) -> Seq<P>
    decreases list.len(),
{
    if list.len() == 0 {
        Seq::empty()
    } else {
        match list.last().loaded {
            Some((p, _)) => plugins_of(list.drop_last()).push(p),
            None => plugins_of(list.drop_last()),
        }
    }
}

/// The revisions to lock.
pub open spec fn locks_of<P>(list: Seq<Outcome<P>>) -> Seq<(String, String)>
    decreases list.len(),
{
    if list.len() == 0 {
        Seq::empty()
    } else {
        match list.last().loaded {
            Some((_, Some(lock))) => locks_of(list.drop_last()).push(lock),
            _ => locks_of(list.drop_last()),
        }
    }
}

/// The repositories whose locks are given up.
pub open spec fn removals_of<P>(list: Seq<Outcome<P>>) -> Seq<String>
    decreases list.len(),
{
    if list.len() == 0 {
        Seq::empty()
    } else {
        match list.last().canon_to_remove {
            Some(canon) => removals_of(list.drop_last()).push(canon),
            None => removals_of(list.drop_last()),
        }
    }
}

/// What is `Ok` in a list.
pub open spec fn all_ok<P, E>(list: Seq<Result<Outcome<P>, E>>) -> Seq<Outcome<P>> {
    list.map_values(|r: Result<Outcome<P>, E>| r->Ok_0)
}

/// The first error is handed on; without errors all results are put together, in order.
pub fn collect_outcomes<P, E>(finished: Vec<Result<Outcome<P>, E>>) -> (collected: Result<
    Collected<P>,
    E,
>)
    ensures
        match collected {
            Ok(c) => {
                &&& forall|i: int| 0 <= i < finished@.len() ==> (#[trigger] finished@[i]) is Ok
                &&& c.plugins@ == plugins_of(all_ok(finished@))
                &&& c.lock_infos@ == locks_of(all_ok(finished@))
                &&& c.remove_canons@ == removals_of(all_ok(finished@))
            },
            Err(e) => exists|i: int|
                #![trigger finished@[i]]
                0 <= i < finished@.len() && finished@[i] == Err::<Outcome<P>, E>(e) && forall|k: int|
                    0 <= k < i ==> (#[trigger] finished@[k]) is Ok,
        },
{
    let ghost raw = finished@;
    let ghost all = all_ok(raw);
    let mut plugins: Vec<P> = Vec::new();
    let mut lock_infos: Vec<(String, String)> = Vec::new();
    let mut remove_canons: Vec<String> = Vec::new();
    assert(all.take(0) =~= Seq::<Outcome<P>>::empty());
    for res in it: finished
        invariant
            it.seq() == raw,
            raw == finished@,
            all == all_ok(raw),
            forall|k: int| 0 <= k < it.index() ==> (#[trigger] raw[k]) is Ok,
            plugins@ == plugins_of(all.take(it.index() as int)),
            lock_infos@ == locks_of(all.take(it.index() as int)),
            remove_canons@ == removals_of(all.take(it.index() as int)),
    {
        let ghost n = it.index() as int;
        assert(raw[n] == res);
        match res {
            Ok(outcome) => {
                proof {
                    assert(all.take(n + 1).drop_last() =~= all.take(n));
                    assert(all.take(n + 1).last() == outcome);
                }
                let Outcome { loaded, canon_to_remove } = outcome;
                if let Some((plugin, lock)) = loaded {
                    plugins.push(plugin);
                    if let Some(lock) = lock {
                        lock_infos.push(lock);
                    }
                }
                if let Some(canon) = canon_to_remove {
                    remove_canons.push(canon);
                }
            },
            Err(e) => {
                assert(finished@[n] == Err::<Outcome<P>, E>(e));
                return Err(e);
            },
        }
    }
    assert(all.take(all.len() as int) =~= all);
    Ok(Collected { plugins, lock_infos, remove_canons })
}

} // verus!
