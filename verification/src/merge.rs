//! Merge planning: which plugins become one package.
//!
//! Plugins are taken in a fixed order.  Each joins the first group that it can be combined with;
//! the combination is then tried against the remaining groups in turn, until nothing more joins.

use crate::lazy_type;
use crate::lazy_type::{Lazy, LazyType};
use crate::loaded;
use crate::loaded::{LoadedPlugin, Plugin};
use crate::order;
use crate::order::{Key, Order};
use vstd::prelude::*;

pub mod laws;
pub mod ordering;
pub mod unique;

verus! {

/// What plugins are ordered by.
pub struct MergeSortKey {
    pub lazy_type: LazyType,
    pub order: usize,
    pub is_lazy_registration: bool,
    pub plugin_id: u128,
}

/// Smaller integers first.
pub open spec fn int_order() -> spec_fn(int, int) -> bool {
    |a: int, b: int| a < b
}

/// False before true.
pub open spec fn bool_order() -> spec_fn(bool, bool) -> bool {
    |a: bool, b: bool| !a && b
}

/// Lazy type, then load order, then whether it is generated, then identity.
pub open spec fn sort_order() -> spec_fn((Lazy, (int, (bool, int))), (Lazy, (int, (bool, int)))) -> bool {
    order::pair_order(
        lazy_type::lazy_order(),
        order::pair_order(int_order(), order::pair_order(bool_order(), int_order())),
    )
}

pub proof fn lemma_sort_order()
    ensures
        order::strict_total(sort_order()),
{
    lazy_type::lemma_lazy_order();
    assert(order::strict_total(int_order()));
    assert(order::strict_total(bool_order()));
    order::lemma_pair_order(bool_order(), int_order());
    order::lemma_pair_order(int_order(), order::pair_order(bool_order(), int_order()));
    order::lemma_pair_order(
        lazy_type::lazy_order(),
        order::pair_order(int_order(), order::pair_order(bool_order(), int_order())),
    );
}

impl Key for MergeSortKey {
    type M = (Lazy, (int, (bool, int)));

    open spec fn model(&self) -> (Lazy, (int, (bool, int))) {
        (
            self.lazy_type@,
            (self.order as int, (self.is_lazy_registration, self.plugin_id as int)),
        )
    }

    open spec fn before(a: (Lazy, (int, (bool, int))), b: (Lazy, (int, (bool, int)))) -> bool {
        sort_order()(a, b)
    }

    proof fn before_strict_total() {
        lemma_sort_order();
        assert(sort_order() =~= |a: (Lazy, (int, (bool, int))), b: (Lazy, (int, (bool, int)))|
            <MergeSortKey as Key>::before(a, b));
    }

    fn compare(&self, other: &Self) -> (order: Order) {
        match self.lazy_type.compare(&other.lazy_type) {
            Order::Less => Order::Less,
            Order::Greater => Order::Greater,
            Order::Equal => {
                if self.order < other.order {
                    Order::Less
                } else if other.order < self.order {
                    Order::Greater
                } else if !self.is_lazy_registration && other.is_lazy_registration {
                    Order::Less
                } else if self.is_lazy_registration && !other.is_lazy_registration {
                    Order::Greater
                } else if self.plugin_id < other.plugin_id {
                    Order::Less
                } else if other.plugin_id < self.plugin_id {
                    Order::Greater
                } else {
                    Order::Equal
                }
            },
        }
    }

    fn duplicate(&self) -> (copy: Self) {
        MergeSortKey {
            lazy_type: self.lazy_type.duplicate(),
            order: self.order,
            is_lazy_registration: self.is_lazy_registration,
            plugin_id: self.plugin_id,
        }
    }
}

/// The key of a plugin.
pub open spec fn sort_key(p: Plugin) -> (Lazy, (int, (bool, int))) {
    (p.lazy, (p.order, (p.is_lazy_registration, loaded::id_of(p) as int)))
}

impl MergeSortKey {
    /// The key of a plugin.
    pub fn new(plugin: &LoadedPlugin) -> (key: MergeSortKey)
        requires
            plugin.wf(),
        ensures
            key.model() == sort_key(plugin@),
    {
        let id = plugin.plugin_id();
        MergeSortKey {
            lazy_type: plugin.lazy_type.duplicate(),
            order: plugin.order,
            is_lazy_registration: plugin.is_lazy_registration,
            plugin_id: id.digest,
        }
    }
}

/// The key of the plugin comes before that of the other.
#[verifier::opaque]
pub open spec fn key_before(a: Plugin, b: Plugin) -> bool {
    sort_order()(sort_key(a), sort_key(b))
}

/// No plugin's key comes before that of an earlier one.
pub open spec fn keys_in_order(list: Seq<Plugin>) -> bool {
    forall|i: int, j: int|
        0 <= i < j < list.len() ==> !key_before(#[trigger] list[j], #[trigger] list[i])
}

/// The first group from `from` on that the plugin can be combined with.
pub open spec fn first_fit(groups: Seq<Plugin>, p: Plugin, from: int) -> Option<int>
    decreases groups.len() - from,
{
    if from < 0 || from >= groups.len() {
        None
    } else if loaded::combinable(groups[from], p) {
        Some(from)
    } else {
        first_fit(groups, p, from + 1)
    }
}

/// Where a plugin goes among ordered groups: behind all that its key does not come before.
pub open spec fn insertion_point(groups: Seq<Plugin>, p: Plugin) -> int
    decreases groups.len(),
{
    if groups.len() == 0 {
        0
    } else if key_before(p, groups.last()) {
        insertion_point(groups.drop_last(), p)
    } else {
        groups.len() as int
    }
}

/// The groups after a plugin has joined: combined with the first that fits, the combination
/// joining the others in turn; or as a group of its own.
pub open spec fn joined(groups: Seq<Plugin>, p: Plugin) -> Seq<Plugin>
    decreases groups.len(),
{
    match first_fit(groups, p, 0) {
        Some(i) => if 0 <= i < groups.len() {
            joined(groups.remove(i), loaded::combined(groups[i], p))
        } else {
            groups
        },
        None => groups.insert(insertion_point(groups, p), p),
    }
}

/// The groups after all plugins have joined in turn.
pub open spec fn joined_all(list: Seq<Plugin>) -> Seq<Plugin>
    decreases list.len(),
{
    if list.len() == 0 {
        Seq::empty()
    } else {
        joined(joined_all(list.drop_last()), list.last())
    }
}

/// `plan` is the merge plan of the plugins.
pub open spec fn is_plan(plugins: Seq<Plugin>, plan: Seq<Plugin>) -> bool {
    exists|sorted: Seq<Plugin>|
        keys_in_order(sorted) && sorted.to_multiset() == plugins.to_multiset() && plan
            == #[trigger] joined_all(sorted)
}

/// No two groups can be combined.
pub open spec fn settled(groups: Seq<Plugin>) -> bool {
    forall|i: int, j: int|
        0 <= i < groups.len() && 0 <= j < groups.len() && i != j ==> !loaded::combinable(
            #[trigger] groups[i],
            #[trigger] groups[j],
        )
}

proof fn lemma_first_fit(groups: Seq<Plugin>, p: Plugin, from: int)
    requires
        0 <= from <= groups.len(),
    ensures
        match first_fit(groups, p, from) {
            Some(i) => {
                &&& from <= i < groups.len()
                &&& loaded::combinable(groups[i], p)
                &&& forall|k: int| from <= k < i ==> !loaded::combinable(#[trigger] groups[k], p)
            },
            None => forall|k: int|
                from <= k < groups.len() ==> !loaded::combinable(#[trigger] groups[k], p),
        },
    decreases groups.len() - from,
{
    if from < groups.len() && !loaded::combinable(groups[from], p) {
        lemma_first_fit(groups, p, from + 1);
    }
}

pub(crate) proof fn lemma_insertion_point(groups: Seq<Plugin>, p: Plugin)
    ensures
        0 <= insertion_point(groups, p) <= groups.len(),
    decreases groups.len(),
{
    if groups.len() > 0 {
        lemma_insertion_point(groups.drop_last(), p);
    }
}

proof fn lemma_joined_settled(groups: Seq<Plugin>, p: Plugin)
    requires
        settled(groups),
    ensures
        settled(joined(groups, p)),
    decreases groups.len(),
{
    lemma_first_fit(groups, p, 0);
    match first_fit(groups, p, 0) {
        Some(i) => {
            let rest = groups.remove(i);
            assert forall|x: int, y: int|
                0 <= x < rest.len() && 0 <= y < rest.len() && x != y implies !loaded::combinable(
                #[trigger] rest[x],
                #[trigger] rest[y],
            ) by {
                let x0 = if x < i { x } else { x + 1 };
                let y0 = if y < i { y } else { y + 1 };
                assert(!loaded::combinable(groups[x0], groups[y0]));
            }
            lemma_joined_settled(rest, loaded::combined(groups[i], p));
        },
        None => {
            lemma_insertion_point(groups, p);
            let at = insertion_point(groups, p);
            let after = groups.insert(at, p);
            assert forall|x: int, y: int|
                0 <= x < after.len() && 0 <= y < after.len() && x != y implies !loaded::combinable(
                #[trigger] after[x],
                #[trigger] after[y],
            ) by {
                let x0 = if x < at { x } else { x - 1 };
                let y0 = if y < at { y } else { y - 1 };
                if x != at && y != at {
                    assert(!loaded::combinable(groups[x0], groups[y0]));
                } else if x == at {
                    assert(!loaded::combinable(groups[y0], p));
                    loaded::law_combinable_symmetric(groups[y0], p);
                } else {
                    assert(!loaded::combinable(groups[x0], p));
                }
            }
        },
    }
}

proof fn lemma_all_settled(list: Seq<Plugin>)
    ensures
        settled(joined_all(list)),
    decreases list.len(),
{
    if list.len() > 0 {
        lemma_all_settled(list.drop_last());
        lemma_joined_settled(joined_all(list.drop_last()), list.last());
    }
}

/// A plan is a fixed point: no two of its groups can be combined any more.
pub proof fn law_plan_is_settled(plugins: Seq<Plugin>, plan: Seq<Plugin>)
    requires
        is_plan(plugins, plan),
    ensures
        settled(plan),
{
    let sorted = choose|sorted: Seq<Plugin>|
        keys_in_order(sorted) && sorted.to_multiset() == plugins.to_multiset() && plan
            == #[trigger] joined_all(sorted);
    lemma_all_settled(sorted);
}

/// The plugins of a list of entries.
pub open spec fn plugin_models(list: Seq<LoadedPlugin>) -> Seq<Plugin> {
    list.map_values(|p: LoadedPlugin| p@)
}

struct MergeEntry {
    plugin: LoadedPlugin,
    key: MergeSortKey,
}

spec fn entry_models(list: Seq<MergeEntry>) -> Seq<Plugin> {
    list.map_values(|e: MergeEntry| e.plugin@)
}

spec fn entry_wf(e: MergeEntry) -> bool {
    e.plugin.wf() && e.key.model() == sort_key(e.plugin@)
}

spec fn entries_wf(list: Seq<MergeEntry>) -> bool {
    forall|i: int| 0 <= i < list.len() ==> entry_wf(#[trigger] list[i])
}

fn entry_of(plugin: LoadedPlugin) -> (entry: MergeEntry)
    requires
        plugin.wf(),
    ensures
        entry_wf(entry),
        entry.plugin@ == plugin@,
{
    let key = MergeSortKey::new(&plugin);
    MergeEntry { plugin, key }
}

/// Where an entry goes among ordered entries.
fn find_insertion_point(list: &Vec<MergeEntry>, entry: &MergeEntry) -> (at: usize)
    requires
        entries_wf(list@),
        entry_wf(*entry),
    ensures
        at <= list@.len(),
        at == insertion_point(entry_models(list@), entry.plugin@),
{
    let ghost models = entry_models(list@);
    let ghost p = entry.plugin@;
    proof {
        lemma_sort_order();
        assert(models.take(models.len() as int) =~= models);
    }
    let mut at: usize = list.len();
    while at > 0
        invariant
            at <= list@.len(),
            models == entry_models(list@),
            p == entry.plugin@,
            entries_wf(list@),
            entry_wf(*entry),
            order::strict_total(sort_order()),
            insertion_point(models, p) == insertion_point(models.take(at as int), p),
        decreases at,
    {
        let ghost front = models.take(at as int);
        proof {
            assert(front.last() == list@[at - 1].plugin@);
            assert(front.drop_last() =~= models.take(at - 1));
            assert(entry_wf(list@[at - 1]));
        }
        let earlier = match entry.key.compare(&list[at - 1].key) {
            Order::Less => true,
            _ => false,
        };
        if !earlier {
            proof {
                reveal(key_before);
                assert(!key_before(p, front.last()));
            }
            return at;
        }
        proof {
            reveal(key_before);
            assert(key_before(p, front.last()));
        }
        at = at - 1;
    }
    assert(models.take(0).len() == 0);
    at
}

/// Plugins in the order of their keys.
fn sort_entries(plugins: Vec<LoadedPlugin>) -> (sorted: Vec<MergeEntry>)
    requires
        forall|i: int| 0 <= i < plugins@.len() ==> (#[trigger] plugins@[i]).wf(),
    ensures
        entries_wf(sorted@),
        keys_in_order(entry_models(sorted@)),
        entry_models(sorted@).to_multiset() == plugin_models(plugins@).to_multiset(),
{
    let ghost raw = plugins@;
    let ghost models = plugin_models(raw);
    let mut sorted: Vec<MergeEntry> = Vec::new();
    proof {
        assert(entry_models(sorted@) =~= Seq::<Plugin>::empty());
        assert(models.take(0) =~= Seq::<Plugin>::empty());
    }
    for plugin in it: plugins
        invariant
            it.seq() == raw,
            models == plugin_models(raw),
            forall|i: int| 0 <= i < raw.len() ==> (#[trigger] raw[i]).wf(),
            entries_wf(sorted@),
            keys_in_order(entry_models(sorted@)),
            entry_models(sorted@).to_multiset() == models.take(it.index() as int).to_multiset(),
    {
        let ghost n = it.index() as int;
        let ghost before = sorted@;
        let ghost p = plugin@;
        assert(raw[n].wf());
        assert(models[n] == p);
        let entry = entry_of(plugin);
        let at = find_insertion_point(&sorted, &entry);
        sorted.insert(at, entry);
        proof {
            let old_models = entry_models(before);
            let new_models = entry_models(sorted@);
            assert(new_models =~= old_models.insert(at as int, p));
            lemma_insert_in_order(old_models, p);
            order::lemma_insert_multiset(old_models, at as int, p);
            assert(models.take(n + 1) =~= models.take(n).push(p));
            order::lemma_push_multiset(models.take(n), p);
            assert forall|i: int| 0 <= i < sorted@.len() implies entry_wf(#[trigger] sorted@[i]) by {
                if i < at {
                    assert(sorted@[i] == before[i]);
                } else if i > at {
                    assert(sorted@[i] == before[i - 1]);
                }
            }
        }
    }
    assert(models.take(models.len() as int) =~= models);
    sorted
}

proof fn lemma_before_later(p: Plugin, g: Plugin, last: Plugin)
    requires
        key_before(p, g),
        !key_before(last, g),
    ensures
        key_before(p, last),
{
    reveal(key_before);
    lemma_sort_order();
    let lt = sort_order();
    let sp = sort_key(p);
    let sg = sort_key(g);
    let sl = sort_key(last);
    assert(sg == sl || lt(sg, sl) || lt(sl, sg));
}

proof fn lemma_before_irreflexive(p: Plugin, g: Plugin)
    requires
        key_before(p, g),
    ensures
        !key_before(g, p),
{
    reveal(key_before);
    lemma_sort_order();
    let lt = sort_order();
    let sp = sort_key(p);
    let sg = sort_key(g);
    if lt(sg, sp) {
        assert(lt(sp, sp));
    }
}

proof fn lemma_insertion_neighbours(groups: Seq<Plugin>, p: Plugin)
    requires
        keys_in_order(groups),
    ensures
        forall|k: int| 0 <= k < insertion_point(groups, p) ==> !key_before(p, #[trigger] groups[k]),
        forall|k: int|
            insertion_point(groups, p) <= k < groups.len() ==> key_before(p, #[trigger] groups[k]),
    decreases groups.len(),
{
    if groups.len() > 0 {
        let front = groups.drop_last();
        assert forall|i: int, j: int| 0 <= i < j < front.len() implies !key_before(
            #[trigger] front[j],
            #[trigger] front[i],
        ) by {
            assert(!key_before(groups[j], groups[i]));
        }
        lemma_insertion_neighbours(front, p);
        lemma_insertion_point(front, p);
        if key_before(p, groups.last()) {
            assert forall|k: int|
                insertion_point(groups, p) <= k < groups.len() implies key_before(
                p,
                #[trigger] groups[k],
            ) by {
                if k < front.len() {
                    assert(front[k] == groups[k]);
                }
            }
            assert forall|k: int| 0 <= k < insertion_point(groups, p) implies !key_before(
                p,
                #[trigger] groups[k],
            ) by {
                assert(front[k] == groups[k]);
            }
        } else {
            assert forall|k: int| 0 <= k < groups.len() implies !key_before(p, #[trigger] groups[k]) by {
                if k < groups.len() - 1 && key_before(p, groups[k]) {
                    let last = groups[groups.len() - 1];
                    assert(!key_before(last, groups[k]));
                    lemma_before_later(p, groups[k], last);
                }
            }
        }
    }
}

proof fn lemma_insert_in_order(groups: Seq<Plugin>, p: Plugin)
    requires
        keys_in_order(groups),
    ensures
        keys_in_order(groups.insert(insertion_point(groups, p), p)),
{
    lemma_insertion_point(groups, p);
    lemma_insertion_neighbours(groups, p);
    let at = insertion_point(groups, p);
    let after = groups.insert(at, p);
    assert forall|x: int, y: int| 0 <= x < y < after.len() implies !key_before(
        #[trigger] after[y],
        #[trigger] after[x],
    ) by {
        let x0 = if x < at { x } else { x - 1 };
        let y0 = if y < at { y } else { y - 1 };
        if x != at && y != at {
            assert(!key_before(groups[y0], groups[x0]));
        } else if x == at {
            assert(key_before(p, groups[y0]));
            lemma_before_irreflexive(p, groups[y0]);
        } else {
            assert(!key_before(p, groups[x0]));
        }
    }
}

/// The first group that a plugin can be combined with.
fn find_fit(groups: &Vec<MergeEntry>, plugin: &LoadedPlugin) -> (found: Option<usize>)
    requires
        entries_wf(groups@),
        plugin.wf(),
    ensures
        match found {
            Some(i) => i < groups@.len() && first_fit(entry_models(groups@), plugin@, 0) == Some(
                i as int,
            ),
            None => first_fit(entry_models(groups@), plugin@, 0) is None,
        },
{
    let ghost models = entry_models(groups@);
    let mut i: usize = 0;
    while i < groups.len()
        invariant
            i <= groups@.len(),
            models == entry_models(groups@),
            entries_wf(groups@),
            plugin.wf(),
            first_fit(models, plugin@, 0) == first_fit(models, plugin@, i as int),
        decreases groups@.len() - i,
    {
        assert(entry_wf(groups@[i as int]));
        assert(models[i as int] == groups@[i as int].plugin@);
        if groups[i].plugin.can_add(plugin) {
            return Some(i);
        }
        i = i + 1;
    }
    None
}

/// Lets a plugin join the groups.
fn join_groups(groups: &mut Vec<MergeEntry>, entry: MergeEntry)
    requires
        entries_wf(old(groups)@),
        entry_wf(entry),
    ensures
        entries_wf(final(groups)@),
        entry_models(final(groups)@) == joined(entry_models(old(groups)@), entry.plugin@),
    decreases old(groups)@.len(),
{
    let ghost start = entry_models(groups@);
    let ghost before = groups@;
    let ghost p = entry.plugin@;
    proof {
        lemma_first_fit(start, p, 0);
    }
    match find_fit(groups, &entry.plugin) {
        Some(i) => {
            assert(entry_wf(groups@[i as int]));
            assert(start[i as int] == groups@[i as int].plugin@);
            let group = groups.remove(i);
            let sum = group.plugin.combine(entry.plugin);
            proof {
                assert(entry_models(groups@) =~= start.remove(i as int));
                assert forall|k: int| 0 <= k < groups@.len() implies entry_wf(#[trigger] groups@[k]) by {
                    let k0 = if k < i { k } else { k + 1 };
                    assert(entry_wf(before[k0]));
                }
            }
            join_groups(groups, entry_of(sum));
        },
        None => {
            let at = find_insertion_point(groups, &entry);
            groups.insert(at, entry);
            proof {
                assert(entry_models(groups@) =~= start.insert(at as int, p));
                assert forall|k: int| 0 <= k < groups@.len() implies entry_wf(#[trigger] groups@[k]) by {
                    if k < at {
                        assert(groups@[k] == before[k]);
                    } else if k > at {
                        assert(groups@[k] == before[k - 1]);
                    }
                }
            }
        },
    }
}

/// Plans merges.
pub struct MergePlanner;

impl MergePlanner {
    /// The packages that the plugins become, in key order.
    pub fn plan(plugins: Vec<LoadedPlugin>) -> (plan: Vec<LoadedPlugin>)
        requires
            forall|i: int| 0 <= i < plugins@.len() ==> (#[trigger] plugins@[i]).wf(),
        ensures
            forall|i: int| 0 <= i < plan@.len() ==> (#[trigger] plan@[i]).wf(),
            is_plan(plugin_models(plugins@), plugin_models(plan@)),
    {
        let sorted = sort_entries(plugins);
        let ghost raw = sorted@;
        let ghost models = entry_models(raw);
        let mut groups: Vec<MergeEntry> = Vec::new();
        proof {
            assert(models.take(0) =~= Seq::<Plugin>::empty());
            assert(entry_models(groups@) =~= Seq::<Plugin>::empty());
        }
        for entry in it: sorted
            invariant
                it.seq() == raw,
                models == entry_models(raw),
                entries_wf(raw),
                entries_wf(groups@),
                entry_models(groups@) == joined_all(models.take(it.index() as int)),
        {
            let ghost n = it.index() as int;
            proof {
                assert(entry_wf(raw[n]));
                assert(models.take(n + 1).drop_last() =~= models.take(n));
                assert(models.take(n + 1).last() == entry.plugin@);
            }
            join_groups(&mut groups, entry);
        }
        assert(models.take(models.len() as int) =~= models);
        let ghost all = groups@;
        let mut plan: Vec<LoadedPlugin> = Vec::new();
        for entry in it: groups
            invariant
                it.seq() == all,
                entries_wf(all),
                plan@.len() == it.index(),
                forall|i: int|
                    0 <= i < plan@.len() ==> (#[trigger] plan@[i]).wf() && plan@[i]@
                        == all[i].plugin@,
        {
            assert(entry_wf(all[it.index() as int]));
            plan.push(entry.plugin);
        }
        assert(plugin_models(plan@) =~= joined_all(models));
        plan
    }
}

impl LoadedPlugin {
    /// Merges packages as far as they can be merged.
    pub fn merge(plugs: Vec<LoadedPlugin>) -> (plan: Vec<LoadedPlugin>)
        requires
            forall|i: int| 0 <= i < plugs@.len() ==> (#[trigger] plugs@[i]).wf(),
        ensures
            forall|i: int| 0 <= i < plan@.len() ==> (#[trigger] plan@[i]).wf(),
            is_plan(plugin_models(plugs@), plugin_models(plan@)),
    {
        MergePlanner::plan(plugs)
    }
}

} // verus!
