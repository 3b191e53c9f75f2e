//! The plugins of a configuration in the order in which they are loaded.

use crate::assembly;
use crate::config::{Config, PluginConfig};
use crate::dag;
use crate::dag::tree;
use crate::dag::tree::DagTree;
use crate::dag::{DagError, DagNode, Placed, TryDag};
use crate::lazy_type::{Event, Lazy, LazyType, LoadEvent};
use crate::loaded;
use crate::order;
use crate::order::SortedSet;
use crate::text;
use vstd::prelude::*;

verus! {

/// A plugin in its place.
pub struct Resolved {
    pub config: PluginConfig,
    /// When it is loaded, for its own sake or for that of plugins that depend on it.
    pub lazy_type: LazyType,
}

/// The entry with its internal identity.
pub open spec fn is_identified(plugin: PluginConfig, given: PluginConfig) -> bool {
    &&& text::optional_string(plugin.id) == Some(given.internal_id_text())
    &&& plugin.cache == given.cache
    &&& plugin.lazy_type == given.lazy_type
    &&& plugin.depends == given.depends
    &&& plugin.custom_name == given.custom_name
    &&& plugin.script == given.script
    &&& plugin.merge == given.merge
}

/// The entries with their internal identities.
pub open spec fn all_identified(plugins: Seq<PluginConfig>, given: Seq<PluginConfig>) -> bool {
    &&& plugins.len() == given.len()
    &&& forall|i: int| 0 <= i < plugins.len() ==> is_identified(#[trigger] plugins[i], given[i])
}

/// `q` is `p` itself or a plugin that depends on it, directly or through others.
pub open spec fn needs(placed: Seq<Placed<PluginConfig>>, q: int, p: int) -> bool
    decreases p,
{
    q == p || exists|k: int|
        0 <= k < placed[p].dependents.len() && 0 <= (#[trigger] placed[p].dependents[k]) < p
            && needs(placed, q, placed[p].dependents[k])
}

/// The plugin at `p` is loaded at startup for the sake of some plugin.
pub open spec fn starts(placed: Seq<Placed<PluginConfig>>, p: int) -> bool {
    exists|q: int| #[trigger] needs(placed, q, p) && assembly::is_start(placed[q].node.lazy_type@)
}

/// The event loads the plugin at `p` for the sake of some plugin.
pub open spec fn brings_in(placed: Seq<Placed<PluginConfig>>, p: int, e: Event) -> bool {
    exists|q: int| #[trigger] needs(placed, q, p) && assembly::loads(placed[q].node.lazy_type@, e)
}

/// When the plugin at `p` is loaded: at startup if it or a plugin that needs it is, else by
/// whatever loads it or a plugin that needs it.
pub open spec fn is_effective(placed: Seq<Placed<PluginConfig>>, p: int, lazy: Lazy) -> bool {
    match lazy {
        Lazy::Start => starts(placed, p),
        Lazy::Opt(list) => !starts(placed, p) && order::ascending::<LoadEvent>(list) && forall|
            e: Event,
        | #[trigger] list.contains(e) <==> brings_in(placed, p, e),
    }
}

/// The list holds the resolved plugins, dependencies first.
pub open spec fn is_resolved(list: Seq<Resolved>, placed: Seq<Placed<PluginConfig>>) -> bool {
    &&& list.len() == placed.len()
    &&& forall|i: int|
        0 <= i < list.len() ==> (#[trigger] list[i]).config == placed[list.len() - 1 - i].node
            && is_effective(placed, list.len() - 1 - i, list[i].lazy_type@) && loaded::lazy_wf(
            list[i].lazy_type,
        )
}

/// The list is the resolution of the given plugins: their names are distinct, their dependencies
/// are known and without a cycle, and they stand in their places.
pub open spec fn loads(given: Seq<PluginConfig>, list: Seq<Resolved>) -> bool {
    exists|nodes: Seq<PluginConfig>, placed: Seq<Placed<PluginConfig>>|
        #![trigger dag::resolves(nodes, placed)]
        is_loading(given, nodes, placed, list)
}

/// The list is the resolution of the given plugins, which are placed so.
pub open spec fn is_loading(
    given: Seq<PluginConfig>,
    nodes: Seq<PluginConfig>,
    placed: Seq<Placed<PluginConfig>>,
    list: Seq<Resolved>,
) -> bool {
    &&& all_identified(nodes, given)
    &&& dag::distinct_names(nodes)
    &&& dag::all_known(nodes)
    &&& !dag::cyclic(nodes)
    &&& dag::resolves(nodes, placed)
    &&& is_resolved(list, placed)
}

/// Resolving the given plugins is refused with the error.
pub open spec fn refuses(given: Seq<PluginConfig>, e: DagError) -> bool {
    exists|nodes: Seq<PluginConfig>| #[trigger]
        all_identified(nodes, given) && dag::resolution(
            nodes,
            Err::<DagTree<PluginConfig>, DagError>(e),
        )
}

fn identify(plugins: Vec<PluginConfig>) -> (named: Vec<PluginConfig>)
    ensures
        all_identified(named@, plugins@),
{
    let ghost given = plugins@;
    let mut named: Vec<PluginConfig> = Vec::new();
    for plugin in it: plugins
        invariant
            it.seq() == given,
            all_identified(named@, given.take(it.index() as int)),
    {
        let id = plugin.compute_internal_id();
        named.push(
            PluginConfig {
                id: Some(id),
                cache: plugin.cache,
                lazy_type: plugin.lazy_type,
                depends: plugin.depends,
                custom_name: plugin.custom_name,
                script: plugin.script,
                merge: plugin.merge,
            },
        );
    }
    assert(given.take(given.len() as int) =~= given);
    named
}

proof fn lemma_effective(
    placed: Seq<Placed<PluginConfig>>,
    p: int,
    others: Seq<Lazy>,
    all: Lazy,
)
    requires
        dag::iterator::dependents_first(placed),
        0 <= p < placed.len(),
        others.len() == placed[p].dependents.len() + 1,
        others[0] == placed[p].node.lazy_type@,
        forall|k: int|
            0 <= k < placed[p].dependents.len() ==> is_effective(
                placed,
                #[trigger] placed[p].dependents[k],
                others[k + 1],
            ),
        assembly::is_loaded_with(Lazy::Opt(Seq::empty()), others, all),
    ensures
        is_effective(placed, p, all),
{
    assert(needs(placed, p, p));
    let startup = exists|i: int| 0 <= i < others.len() && assembly::is_start(#[trigger] others[i]);
    if startup {
        let i = choose|i: int| 0 <= i < others.len() && assembly::is_start(#[trigger] others[i]);
        if i > 0 {
            let d = placed[p].dependents[i - 1];
            assert(is_effective(placed, d, others[i]));
            let q = choose|q: int| #[trigger]
                needs(placed, q, d) && assembly::is_start(placed[q].node.lazy_type@);
            assert(needs(placed, q, p));
        }
        assert(starts(placed, p));
    }
    if starts(placed, p) {
        let q = choose|q: int| #[trigger]
            needs(placed, q, p) && assembly::is_start(placed[q].node.lazy_type@);
        if q != p {
            let k = choose|k: int|
                0 <= k < placed[p].dependents.len() && 0 <= (#[trigger] placed[p].dependents[k]) < p
                    && needs(placed, q, placed[p].dependents[k]);
            let d = placed[p].dependents[k];
            assert(starts(placed, d));
            assert(assembly::is_start(others[k + 1]));
        } else {
            assert(assembly::is_start(others[0]));
        }
    }
    assert(startup == starts(placed, p));
    if let Lazy::Opt(list) = all {
        assert forall|e: Event| #[trigger] list.contains(e) <==> brings_in(placed, p, e) by {
            if list.contains(e) {
                let i = choose|i: int|
                    0 <= i < others.len() && assembly::loads(#[trigger] others[i], e);
                if i > 0 {
                    let d = placed[p].dependents[i - 1];
                    assert(is_effective(placed, d, others[i]));
                    assert(others[i]->Opt_0.contains(e));
                    let q = choose|q: int| #[trigger]
                        needs(placed, q, d) && assembly::loads(placed[q].node.lazy_type@, e);
                    assert(needs(placed, q, p));
                }
            }
            if brings_in(placed, p, e) {
                let q = choose|q: int| #[trigger]
                    needs(placed, q, p) && assembly::loads(placed[q].node.lazy_type@, e);
                if q != p {
                    let k = choose|k: int|
                        0 <= k < placed[p].dependents.len() && 0 <= (
                        #[trigger] placed[p].dependents[k]) < p && needs(
                            placed,
                            q,
                            placed[p].dependents[k],
                        );
                    let d = placed[p].dependents[k];
                    assert(brings_in(placed, d, e));
                    assert(!assembly::is_start(others[k + 1]));
                    assert(others[k + 1]->Opt_0.contains(e));
                    assert(assembly::loads(others[k + 1], e));
                } else {
                    assert(assembly::loads(others[0], e));
                }
            }
        }
    }
}

/// Puts the plugins of a configuration in the order in which they are loaded.  Dependencies come
/// first, and load together with the plugins that need them.
pub fn resolve(config: Config) -> (result: Result<Vec<Resolved>, DagError>)
    ensures
        match result {
            Ok(list) => loads(config.plugins@, list@),
            Err(e) => refuses(config.plugins@, e),
        },
{
    let nodes = identify(config.plugins);
    let ghost given = nodes@;
    let found = nodes.try_dag();
    let tree = match found {
        Ok(tree) => tree,
        Err(e) => {
            assert(all_identified(given, config.plugins@));
            return Err(e);
        },
    };
    let ghost placed = tree@;
    let mut lazies: Vec<LazyType> = Vec::new();
    proof {
        tree::lemma_tree_view(tree);
    }
    while lazies.len() < tree.inner.len()
        invariant
            lazies@.len() <= tree.inner@.len(),
            placed == tree@,
            placed.len() == tree.inner@.len(),
            forall|p: int|
                0 <= p < tree.inner@.len() ==> #[trigger] placed[p] == tree::placed(tree.inner@[p]),
            dag::iterator::dependents_first(placed),
            forall|p: int|
                0 <= p < lazies@.len() ==> is_effective(placed, p, (#[trigger] lazies@[p])@)
                    && loaded::lazy_wf(lazies@[p]),
        decreases tree.inner@.len() - lazies@.len(),
    {
        let p: usize = lazies.len();
        let item = &tree.inner[p];
        let mut others: Vec<&LazyType> = Vec::new();
        others.push(&item.inner.lazy_type);
        let mut k: usize = 0;
        while k < item.dependents_indexes.len()
            invariant
                k <= item.dependents_indexes@.len(),
                p == lazies@.len(),
                p < placed.len(),
                placed[p as int] == tree::placed(*item),
                dag::iterator::dependents_first(placed),
                others@.len() == k + 1,
                *others@[0] == item.inner.lazy_type,
                forall|p: int|
                    0 <= p < lazies@.len() ==> is_effective(placed, p, (#[trigger] lazies@[p])@),
                forall|l: int|
                    0 <= l < k ==> is_effective(
                        placed,
                        #[trigger] placed[p as int].dependents[l],
                        others@[l + 1]@,
                    ),
            decreases item.dependents_indexes@.len() - k,
        {
            let d: usize = item.dependents_indexes[k];
            assert(placed[p as int].dependents[k as int] == d);
            others.push(&lazies[d]);
            k = k + 1;
        }
        let none: SortedSet<LoadEvent> = SortedSet::new();
        proof {
            if none.members().len() > 0 {
                assert(none.has(none.members()[0]));
            }
            assert(none.members() =~= Seq::<Event>::empty());
        }
        let all = assembly::loaded_with(LazyType::Opt(none), &others);
        proof {
            let list = assembly::lazies(others@);
            assert(list[0] == placed[p as int].node.lazy_type@);
            assert forall|l: int| 0 <= l < placed[p as int].dependents.len() implies is_effective(
                placed,
                #[trigger] placed[p as int].dependents[l],
                list[l + 1],
            ) by {
                assert(list[l + 1] == others@[l + 1]@);
            }
            lemma_effective(placed, p as int, list, all@);
        }
        lazies.push(all);
    }
    let ghost ready = lazies@;
    let ghost items = tree.inner@;
    let mut inner = tree.inner;
    let mut list: Vec<Resolved> = Vec::new();
    while inner.len() > 0
        invariant
            inner@.len() == lazies@.len(),
            inner@.len() + list@.len() == placed.len(),
            items.len() == placed.len(),
            ready.len() == placed.len(),
            inner@ == items.take(inner@.len() as int),
            lazies@ == ready.take(lazies@.len() as int),
            forall|p: int| 0 <= p < items.len() ==> #[trigger] placed[p] == tree::placed(items[p]),
            forall|p: int|
                0 <= p < ready.len() ==> is_effective(placed, p, (#[trigger] ready[p])@)
                    && loaded::lazy_wf(ready[p]),
            forall|i: int|
                0 <= i < list@.len() ==> (#[trigger] list@[i]).config == placed[placed.len() - 1
                    - i].node && is_effective(placed, placed.len() - 1 - i, list@[i].lazy_type@)
                    && loaded::lazy_wf(list@[i].lazy_type),
        decreases inner@.len(),
    {
        let ghost n = inner@.len() as int - 1;
        match (inner.pop(), lazies.pop()) {
            (Some(item), Some(lazy_type)) => {
                assert(item == items[n]);
                assert(lazy_type == ready[n]);
                assert(placed[n] == tree::placed(items[n]));
                list.push(Resolved { config: item.inner, lazy_type });
                assert(inner@ =~= items.take(inner@.len() as int));
                assert(lazies@ =~= ready.take(lazies@.len() as int));
            },
            _ => {},
        }
    }
    assert(is_loading(config.plugins@, given, placed, list@));
    Ok(list)
}

/// Plugins of one name are not loaded.
pub proof fn law_duplicates_are_refused(
    given: Seq<PluginConfig>,
    list: Seq<Resolved>,
    i: int,
    j: int,
)
    requires
        0 <= i < j < given.len(),
        given[i].internal_id_text() == given[j].internal_id_text(),
    ensures
        !loads(given, list),
{
    if loads(given, list) {
        let (nodes, placed) = choose|nodes: Seq<PluginConfig>, placed: Seq<Placed<PluginConfig>>|
            #![trigger dag::resolves(nodes, placed)]
            is_loading(given, nodes, placed, list);
        assert(is_identified(nodes[i], given[i]) && is_identified(nodes[j], given[j]));
        assert(dag::is_named(nodes, dag::DagNode::node_id(&nodes[j])->0, i));
        assert(dag::repeats_name(nodes, j));
    }
}

/// The plugins that are loaded have distinct names.
pub proof fn law_distinct_names_loaded(
    given: Seq<PluginConfig>,
    list: Seq<Resolved>,
    i: int,
    j: int,
)
    requires
        loads(given, list),
        0 <= i < j < list.len(),
    ensures
        list[i].config.internal_id_text() != list[j].config.internal_id_text(),
{
    let (nodes, placed) = choose|nodes: Seq<PluginConfig>, placed: Seq<Placed<PluginConfig>>|
        #![trigger dag::resolves(nodes, placed)]
        is_loading(given, nodes, placed, list);
    let order = dag::stored_order(nodes);
    dag::lemma_stored_order(nodes, placed);
    let p = list.len() - 1 - i;
    let q = list.len() - 1 - j;
    assert(list[i].config == placed[p].node && list[j].config == placed[q].node);
    let k = order[p];
    let l = order[q];
    assert(k != l);
    assert(is_identified(nodes[k], given[k]) && is_identified(nodes[l], given[l]));
    if given[k].internal_id_text() == given[l].internal_id_text() {
        if k < l {
            law_duplicates_are_refused(given, list, k, l);
        } else {
            law_duplicates_are_refused(given, list, l, k);
        }
    }
    assert(nodes[k].internal_id_text() == given[k].internal_id_text());
    assert(nodes[l].internal_id_text() == given[l].internal_id_text());
}

/// A plugin is loaded no later than those that depend on it: what loads them loads it.
pub proof fn law_loaded_together(
    placed: Seq<Placed<PluginConfig>>,
    p: int,
    k: int,
    own: Lazy,
    other: Lazy,
    e: Event,
)
    requires
        dag::iterator::dependents_first(placed),
        0 <= p < placed.len(),
        0 <= k < placed[p].dependents.len(),
        is_effective(placed, p, own),
        is_effective(placed, placed[p].dependents[k], other),
    ensures
        assembly::is_start(other) ==> assembly::is_start(own),
        assembly::loads(other, e) ==> assembly::is_start(own) || assembly::loads(own, e),
{
    let d = placed[p].dependents[k];
    if assembly::is_start(other) {
        let q = choose|q: int| #[trigger]
            needs(placed, q, d) && assembly::is_start(placed[q].node.lazy_type@);
        assert(needs(placed, q, p));
        assert(starts(placed, p));
    }
    if assembly::loads(other, e) {
        assert(other->Opt_0.contains(e));
        let q = choose|q: int| #[trigger]
            needs(placed, q, d) && assembly::loads(placed[q].node.lazy_type@, e);
        assert(needs(placed, q, p));
        assert(brings_in(placed, p, e));
        if let Lazy::Opt(list) = own {
            assert(list.contains(e));
        }
    }
}

/// A plugin that nothing depends on is loaded when its own entry says.
pub proof fn law_loaded_alone(placed: Seq<Placed<PluginConfig>>, p: int, own: Lazy, e: Event)
    requires
        0 <= p < placed.len(),
        placed[p].dependents.len() == 0,
        is_effective(placed, p, own),
    ensures
        assembly::is_start(own) == assembly::is_start(placed[p].node.lazy_type@),
        assembly::loads(own, e) == assembly::loads(placed[p].node.lazy_type@, e),
{
    assert(needs(placed, p, p));
    assert forall|q: int| #[trigger] needs(placed, q, p) implies q == p by {}
    if assembly::loads(own, e) {
        assert(own->Opt_0.contains(e));
    }
    if assembly::loads(placed[p].node.lazy_type@, e) {
        assert(brings_in(placed, p, e));
        if let Lazy::Opt(list) = own {
            assert(list.contains(e));
        } else {
            assert(starts(placed, p));
        }
    }
}

/// Every dependency of a resolved plugin is resolved too, under the name that it is asked for by,
/// and comes before the plugin.
pub proof fn law_dependencies_resolved_first(
    given: Seq<PluginConfig>,
    list: Seq<Resolved>,
    i: int,
    k: int,
)
    requires
        loads(given, list),
        0 <= i < list.len(),
        0 <= k < list[i].config.depends@.len(),
    ensures
        exists|j: int|
            0 <= j < i && text::optional_string((#[trigger] list[j]).config.id) == Some(
                list[i].config.depends@[k]@,
            ),
{
    let (nodes, placed) = choose|nodes: Seq<PluginConfig>, placed: Seq<Placed<PluginConfig>>|
        #![trigger dag::resolves(nodes, placed)]
        is_loading(given, nodes, placed, list);
    let p = list.len() - 1 - i;
    assert(list[i].config == placed[p].node);
    assert(placed[p].node.node_depends() == text::strings(list[i].config.depends@));
    let q = dag::law_dependencies_come_first(nodes, placed, p, k);
    let j = list.len() - 1 - q;
    assert(list[j].config == placed[q].node);
    assert(placed[q].node.node_id() == text::optional_string(list[j].config.id));
}

/// Every given plugin is resolved, as it was given but for its identity, which is its name or stands
/// for one.
pub proof fn law_all_are_resolved(given: Seq<PluginConfig>, list: Seq<Resolved>, i: int)
    requires
        loads(given, list),
        0 <= i < given.len(),
    ensures
        list.len() == given.len(),
        exists|j: int| 0 <= j < list.len() && is_resolved_from(#[trigger] list[j], given[i]),
{
    let (nodes, placed) = choose|nodes: Seq<PluginConfig>, placed: Seq<Placed<PluginConfig>>|
        #![trigger dag::resolves(nodes, placed)]
        is_loading(given, nodes, placed, list);
    dag::law_every_node_once(nodes, placed, i);
    let p = choose|p: int|
        0 <= p < placed.len() && (#[trigger] placed[p]).index == i && placed[p].node == nodes[i];
    let j = list.len() - 1 - p;
    assert(list[j].config == placed[p].node);
    assert(is_identified(nodes[i], given[i]));
    assert(is_resolved_from(list[j], given[i]));
}

/// The resolved plugin is the given one, with its identity.
pub open spec fn is_resolved_from(r: Resolved, given: PluginConfig) -> bool {
    &&& text::optional_string(r.config.id) == Some(given.internal_id_text())
    &&& r.config.cache == given.cache
    &&& r.config.depends == given.depends
    &&& r.config.custom_name == given.custom_name
    &&& r.config.script == given.script
    &&& r.config.merge == given.merge
    &&& r.config.lazy_type == given.lazy_type
}

} // verus!
