//! The plan of an installation: which packages are to be installed, and with which files.

use crate::digest;
use crate::files;
use crate::files::{FileItem, FileSource, Item, Source};
use crate::lazy_registration;
use crate::lazy_registration::create;
use crate::lazy_registration::{LazyRegistration, Registration};
use crate::lazy_type;
use crate::loaded;
use crate::loaded::{LoadedPlugin, Plugin};
use crate::merge;
use crate::merge::MergePlanner;
use crate::names;
use crate::names::NameIndex;
use crate::order;
use crate::order::Order;
use crate::path::{Part, Path};
use crate::text;
use std::sync::Arc;
use vstd::prelude::*;

pub mod contents;
pub mod ft_index;
pub mod ft_laws;
pub mod ft_names;
pub mod laws;
pub mod one_plan;

verus! {

/// The files of a package.
pub struct Files {
    /// Whether the package is generated for lazy loading.
    pub is_lazy_registration: bool,
    /// What to place, by path.
    pub entries: Vec<(Path, Arc<FileSource>)>,
    /// Whether `.git` belongs to the package.
    pub dotgit: bool,
}

/// What the files of a package are, mathematically.
pub struct Package {
    pub is_lazy_registration: bool,
    pub entries: Seq<(Seq<Part>, Source)>,
    pub dotgit: bool,
}

/// What to place, by path.
pub open spec fn placements(list: Seq<(Path, Arc<FileSource>)>) -> Seq<(Seq<Part>, Source)> {
    list.map_values(|e: (Path, Arc<FileSource>)| (e.0@, (*e.1)@))
}

impl View for Files {
    type V = Package;

    open spec fn view(&self) -> Package {
        Package {
            is_lazy_registration: self.is_lazy_registration,
            entries: placements(self.entries@),
            dotgit: self.dotgit,
        }
    }
}

impl Files {
    /// Every source answers for its entries.
    pub open spec fn wf(&self) -> bool {
        forall|i: int| 0 <= i < self.entries@.len() ==> (#[trigger] self.entries@[i]).1.wf()
    }
}

/// Packages by identity.
pub open spec fn packages(list: Seq<(String, Files)>) -> Seq<(Seq<char>, Package)> {
    list.map_values(|e: (String, Files)| (e.0@, e.1@))
}

/// The identities of all packages that are planned.
pub struct Installing {
    index: NameIndex,
    ids: Vec<String>,
}

impl View for Installing {
    type V = Seq<Seq<char>>;

    closed spec fn view(&self) -> Seq<Seq<char>> {
        text::strings(self.ids@)
    }
}

impl Installing {
    /// The index holds the identities.
    pub closed spec fn wf(&self) -> bool {
        forall|k: Seq<char>| #[trigger]
            names::index_contents(self.index).contains_key(k) <==> self@.contains(k)
    }

    fn new() -> (ids: Installing)
        ensures
            ids.wf(),
            ids@ == Seq::<Seq<char>>::empty(),
    {
        let ids = Installing { index: NameIndex::new(), ids: Vec::new() };
        assert(ids@ =~= Seq::<Seq<char>>::empty());
        ids
    }

    fn len(&self) -> (n: usize)
        ensures
            n == self@.len(),
    {
        self.ids.len()
    }

    /// Adds an identity; tells whether it is new.
    fn insert(&mut self, id: &String) -> (new: bool)
        requires
            old(self).wf(),
        ensures
            final(self).wf(),
            new == !old(self)@.contains(id@),
            final(self)@ == (if old(self)@.contains(id@) {
                old(self)@
            } else {
                old(self)@.push(id@)
            }),
    {
        let ghost before = *self;
        if self.index.get(id.as_str()).is_some() {
            return false;
        }
        self.index.insert(id.as_str(), 0);
        self.ids.push(id.clone());
        proof {
            assert(self@ =~= before@.push(id@));
            assert forall|k: Seq<char>| #[trigger]
                names::index_contents(self.index).contains_key(k) <==> self@.contains(k) by {
                order::lemma_contains_push(before@, id@, k);
                assert(names::index_contents(before.index).contains_key(k) <==> before@.contains(k));
            }
        }
        true
    }
}

/// The plan of an installation.
pub struct PackPlan {
    /// The packages that are planned.
    pub installing: Installing,
    /// The packages that have files.
    pub files: Vec<(String, Files)>,
    /// The registration of the packages that are no generated ones.
    pub ctl: LazyRegistration,
    /// The documentation that was split off.
    pub doc_plugins: Vec<LoadedPlugin>,
}

/// What a plan is, mathematically.
pub struct Plan {
    pub installing: Seq<Seq<char>>,
    pub files: Seq<(Seq<char>, Package)>,
    pub ctl: Registration,
    pub docs: Seq<Plugin>,
}

impl View for PackPlan {
    type V = Plan;

    open spec fn view(&self) -> Plan {
        Plan {
            installing: self.installing@,
            files: packages(self.files@),
            ctl: self.ctl@,
            docs: merge::plugin_models(self.doc_plugins@),
        }
    }
}

/// The identity of a plugin as text.
pub open spec fn id_text(p: Plugin) -> Seq<char> {
    digest::digest_text(loaded::id_of(p))
}

/// The package that a plugin becomes.
pub open spec fn package_of(p: Plugin) -> Package {
    Package {
        is_lazy_registration: p.is_lazy_registration,
        entries: loaded::map_listing(p.files).map_values(|e: (Seq<Part>, Item)| (e.0, e.1.source)),
        dotgit: p.dotgit,
    }
}

/// A plan with one more plugin.  One that is planned already changes nothing.
pub open spec fn inserted(plan: Plan, p: Plugin) -> Plan {
    let id = id_text(p);
    if plan.installing.contains(id) {
        plan
    } else {
        Plan {
            installing: plan.installing.push(id),
            files: if package_of(p).entries.len() == 0 {
                plan.files
            } else {
                plan.files.push((id, package_of(p)))
            },
            ctl: if p.is_lazy_registration {
                plan.ctl
            } else {
                lazy_registration::both(
                    plan.ctl,
                    create::created(id, p.source_names, p.lazy, p.script, p.order),
                )
            },
            docs: plan.docs,
        }
    }
}

/// A plan with more plugins, one after the other.
pub open spec fn inserted_all(plan: Plan, list: Seq<Plugin>) -> Plan
    decreases list.len(),
{
    if list.len() == 0 {
        plan
    } else {
        inserted(inserted_all(plan, list.drop_last()), list.last())
    }
}

/// A plan of nothing.
pub open spec fn no_plan() -> Plan {
    Plan {
        installing: Seq::empty(),
        files: Seq::empty(),
        ctl: lazy_registration::no_registration(),
        docs: Seq::empty(),
    }
}

/// The plugin without its documentation.
pub open spec fn rest_of(p: Plugin) -> Plugin {
    Plugin { files: loaded::without_doc(p.files), ..p }
}

/// The plugin has documentation.
pub open spec fn has_doc(p: Plugin) -> bool {
    exists|q: Seq<Part>| #[trigger] p.files.contains_key(q) && loaded::in_doc(q)
}

/// The plugins without their documentation.
pub open spec fn rests(list: Seq<Plugin>) -> Seq<Plugin> {
    list.map_values(|p: Plugin| rest_of(p))
}

/// The documentation of the plugins.
pub open spec fn docs(list: Seq<Plugin>) -> Seq<Plugin>
    decreases list.len(),
{
    if list.len() == 0 {
        Seq::empty()
    } else if has_doc(list.last()) {
        docs(list.drop_last()).push(loaded::doc_plugin(loaded::only_doc(list.last().files)))
    } else {
        docs(list.drop_last())
    }
}

/// `out` holds the plugins in the order in which they come out of a set of plugins.
pub open spec fn comes_out(out: Seq<Plugin>, list: Seq<Plugin>) -> bool {
    &&& out.to_multiset() == list.to_multiset()
    &&& forall|i: int, j: int|
        0 <= i < j < out.len() ==> !loaded::comes_out_before(
            #[trigger] out[j],
            #[trigger] out[i],
        )
}

/// `out` is the merge plan of the plugins in the order in which it is installed.
pub open spec fn planned(list: Seq<Plugin>, out: Seq<Plugin>) -> bool {
    exists|plan: Seq<Plugin>| #[trigger] merge::is_plan(list, plan) && comes_out(out, plan)
}

pub open spec fn all_wf(list: Seq<LoadedPlugin>) -> bool {
    forall|i: int| 0 <= i < list.len() ==> (#[trigger] list[i]).wf()
}

proof fn lemma_comes_out_order()
    ensures
        forall|a: Plugin, b: Plugin, c: Plugin| #[trigger]
            loaded::comes_out_before(a, b) && #[trigger] loaded::comes_out_before(b, c)
                ==> loaded::comes_out_before(a, c),
        forall|a: Plugin, b: Plugin, c: Plugin|
            #![trigger loaded::comes_out_before(a, b), loaded::comes_out_before(b, c)]
            !loaded::comes_out_before(a, b) && !loaded::comes_out_before(b, c)
                ==> !loaded::comes_out_before(a, c),
{
    lazy_type::lemma_lazy_order();
    let lt = lazy_type::lazy_order();
    assert forall|a: Plugin, b: Plugin, c: Plugin| #[trigger]
        loaded::comes_out_before(a, b) && #[trigger] loaded::comes_out_before(b, c) implies loaded::comes_out_before(a, c) by {
        if lt(b.lazy, a.lazy) && lt(c.lazy, b.lazy) {
            assert(lt(c.lazy, a.lazy));
        }
    }
    assert forall|a: Plugin, b: Plugin, c: Plugin|
        #![trigger loaded::comes_out_before(a, b), loaded::comes_out_before(b, c)]
        !loaded::comes_out_before(a, b) && !loaded::comes_out_before(b, c) implies !loaded::comes_out_before(a, c) by {
        assert(a.lazy == b.lazy || lt(a.lazy, b.lazy) || lt(b.lazy, a.lazy));
        assert(b.lazy == c.lazy || lt(b.lazy, c.lazy) || lt(c.lazy, b.lazy));
        if lt(c.lazy, a.lazy) {
            if lt(a.lazy, b.lazy) {
                assert(lt(c.lazy, b.lazy));
            }
        }
        if a.lazy == c.lazy && a.order < c.order {
            if lt(a.lazy, b.lazy) {
                assert(lt(c.lazy, b.lazy));
            }
        }
    }
}

/// The plugins in the order in which they come out of a set of plugins.
fn pop_order(list: Vec<LoadedPlugin>) -> (out: Vec<LoadedPlugin>)
    requires
        all_wf(list@),
    ensures
        all_wf(out@),
        comes_out(merge::plugin_models(out@), merge::plugin_models(list@)),
{
    let ghost raw = list@;
    let ghost models = merge::plugin_models(raw);
    let mut out: Vec<LoadedPlugin> = Vec::new();
    proof {
        assert(models.take(0) =~= Seq::<Plugin>::empty());
        assert(merge::plugin_models(out@) =~= Seq::<Plugin>::empty());
    }
    for plugin in it: list
        invariant
            it.seq() == raw,
            models == merge::plugin_models(raw),
            all_wf(raw),
            all_wf(out@),
            comes_out(merge::plugin_models(out@), models.take(it.index() as int)),
    {
        let ghost n = it.index() as int;
        let ghost before = out@;
        let ghost sorted = merge::plugin_models(before);
        let ghost p = plugin@;
        proof {
            assert(raw[n].wf());
            assert(models[n] == p);
            lemma_comes_out_order();
        }
        let mut at: usize = out.len();
        while at > 0
            invariant
                at <= before.len(),
                out@ == before,
                sorted == merge::plugin_models(before),
                p == plugin@,
                forall|i: int|
                    at <= i < sorted.len() ==> loaded::comes_out_before(p, #[trigger] sorted[i]),
            ensures
                at <= before.len(),
                forall|i: int|
                    at <= i < sorted.len() ==> loaded::comes_out_before(p, #[trigger] sorted[i]),
                at > 0 ==> !loaded::comes_out_before(p, sorted[at - 1]),
            decreases at,
        {
            match plugin.compare(&out[at - 1]) {
                Order::Less => {
                    at = at - 1;
                },
                _ => {
                    proof {
                        lazy_type::lemma_lazy_order();
                        let x = sorted[at - 1];
                        let lt = lazy_type::lazy_order();
                        assert(!lt(p.lazy, p.lazy));
                        if lt(x.lazy, p.lazy) && lt(p.lazy, x.lazy) {
                            assert(lt(x.lazy, x.lazy));
                        }
                    }
                    break;
                },
            }
        }
        out.insert(at, plugin);
        proof {
            let done = merge::plugin_models(out@);
            assert(done =~= sorted.insert(at as int, p));
            order::lemma_insert_multiset(sorted, at as int, p);
            assert(models.take(n + 1) =~= models.take(n).push(p));
            order::lemma_push_multiset(models.take(n), p);
            assert forall|i: int, j: int| 0 <= i < j < done.len() implies !loaded::comes_out_before(
                #[trigger] done[j],
                #[trigger] done[i],
            ) by {
                let a = if i < at { i } else { i - 1 };
                let b = if j < at { j } else { j - 1 };
                if j == at {
                    assert(!loaded::comes_out_before(p, sorted[at - 1]));
                    if i < at - 1 {
                        assert(!loaded::comes_out_before(sorted[at - 1], sorted[i]));
                    }
                } else if i == at {
                    assert(loaded::comes_out_before(p, sorted[b]));
                    if loaded::comes_out_before(sorted[b], p) {
                        assert(loaded::comes_out_before(p, p));
                        lazy_type::lemma_lazy_order();
                    }
                } else {
                    assert(done[i] == sorted[a] && done[j] == sorted[b]);
                }
            }
            assert forall|i: int| 0 <= i < out@.len() implies (#[trigger] out@[i]).wf() by {
                if i < at {
                    assert(out@[i] == before[i]);
                } else if i > at {
                    assert(out@[i] == before[i - 1]);
                }
            }
        }
    }
    assert(models.take(models.len() as int) =~= models);
    out
}

/// The entries of a package without what digests alone need.
fn placement_list(files: crate::order::SortedMap<Path, FileItem>) -> (entries: Vec<
    (Path, Arc<FileSource>),
>)
    requires
        files::files_wf(files),
    ensures
        placements(entries@) == loaded::map_listing(files::files_map(files)).map_values(
            |e: (Seq<Part>, Item)| (e.0, e.1.source),
        ),
        forall|i: int| 0 <= i < entries@.len() ==> (#[trigger] entries@[i]).1.wf(),
{
    let ghost given = files;
    let ghost all = files::listing(files);
    let ghost raw = files.entries@;
    proof {
        order::lemma_fields(given);
        loaded::lemma_listing(given);
    }
    let list = files.entries;
    let mut entries: Vec<(Path, Arc<FileSource>)> = Vec::new();
    for pair in it: list
        invariant
            it.seq() == raw,
            raw == given.entries@,
            files::files_wf(given),
            all == files::listing(given),
            given.keys() == raw.map_values(|e: (Path, FileItem)| e.0@),
            given.values() == raw.map_values(|e: (Path, FileItem)| e.1),
            entries@.len() == it.index(),
            forall|i: int|
                0 <= i < entries@.len() ==> (#[trigger] entries@[i]).0@ == all[i].0
                    && (*entries@[i].1)@ == all[i].1.source && entries@[i].1.wf(),
    {
        let ghost n = it.index() as int;
        let (p, item) = pair;
        proof {
            assert(raw[n] == pair);
            given.lemma_at(n);
            assert(given.has(given.keys()[n]));
            assert(item.wf());
            assert(all[n] == (p@, item@));
        }
        entries.push((p, item.source));
    }
    assert(placements(entries@) =~= all.map_values(|e: (Seq<Part>, Item)| (e.0, e.1.source)));
    entries
}

impl PackPlan {
    /// All parts are well formed.
    pub open spec fn wf(&self) -> bool {
        &&& self.installing.wf()
        &&& self.ctl.wf()
        &&& forall|i: int| 0 <= i < self.files@.len() ==> (#[trigger] self.files@[i]).1.wf()
        &&& all_wf(self.doc_plugins@)
    }

    /// The number of planned packages.
    pub fn len(&self) -> (n: usize)
        ensures
            n == self@.installing.len(),
    {
        self.installing.len()
    }

    /// A plan of nothing.
    pub fn new() -> (plan: PackPlan)
        ensures
            plan.wf(),
            plan@ == no_plan(),
    {
        let plan = PackPlan {
            installing: Installing::new(),
            files: Vec::new(),
            ctl: LazyRegistration::new(),
            doc_plugins: Vec::new(),
        };
        assert(packages(plan.files@) =~= Seq::<(Seq<char>, Package)>::empty());
        assert(merge::plugin_models(plan.doc_plugins@) =~= Seq::<Plugin>::empty());
        plan
    }

    /// Plans a package, and registers it unless it is a generated one.  A package that is planned
    /// already is passed over.
    pub fn insert(&mut self, loaded_plugin: LoadedPlugin)
        requires
            old(self).wf(),
            loaded_plugin.wf(),
        ensures
            final(self).wf(),
            final(self)@ == inserted(old(self)@, loaded_plugin@),
    {
        let ghost before = *self;
        let ghost p = loaded_plugin@;
        let id = loaded_plugin.plugin_id();
        let id_str = id.as_str();
        if !self.installing.insert(&id_str) {
            return;
        }
        let LoadedPlugin {
            source_names,
            lazy_type,
            files,
            script,
            order,
            merge_enabled: _,
            is_lazy_registration,
            dotgit,
        } = loaded_plugin;
        if !is_lazy_registration {
            self.ctl.add_assign(
                LazyRegistration::create(id, source_names, lazy_type, script, order),
            );
        }
        let entries = placement_list(files);
        if entries.len() > 0 {
            let ghost raw = self.files@;
            let package = Files { is_lazy_registration, entries, dotgit };
            assert(package@ == package_of(p));
            self.files.push((id_str, package));
            proof {
                assert(packages(self.files@) =~= packages(raw).push((id_text(p), package_of(p))));
                assert forall|i: int| 0 <= i < self.files@.len() implies (
                #[trigger] self.files@[i]).1.wf() by {
                    if i < raw.len() {
                        assert(self.files@[i] == raw[i]);
                    }
                }
            }
        }
    }

    fn insert_all(&mut self, list: Vec<LoadedPlugin>)
        requires
            old(self).wf(),
            all_wf(list@),
        ensures
            final(self).wf(),
            final(self)@ == inserted_all(old(self)@, merge::plugin_models(list@)),
    {
        let ghost before = self@;
        let ghost raw = list@;
        let ghost models = merge::plugin_models(raw);
        assert(models.take(0) =~= Seq::<Plugin>::empty());
        for plugin in it: list
            invariant
                it.seq() == raw,
                models == merge::plugin_models(raw),
                all_wf(raw),
                self.wf(),
                self@ == inserted_all(before, models.take(it.index() as int)),
        {
            let ghost n = it.index() as int;
            proof {
                assert(raw[n].wf());
                assert(models.take(n + 1).drop_last() =~= models.take(n));
                assert(models.take(n + 1).last() == plugin@);
            }
            self.insert(plugin);
        }
        assert(models.take(models.len() as int) =~= models);
    }

    fn split_docs(&mut self, plugins: Vec<LoadedPlugin>) -> (rest: Vec<LoadedPlugin>)
        requires
            old(self).wf(),
            all_wf(plugins@),
        ensures
            final(self).wf(),
            all_wf(rest@),
            merge::plugin_models(rest@) == rests(merge::plugin_models(plugins@)),
            final(self)@ == (Plan {
                docs: old(self)@.docs + docs(merge::plugin_models(plugins@)),
                ..old(self)@
            }),
    {
        let ghost before = *self;
        let ghost raw = plugins@;
        let ghost models = merge::plugin_models(raw);
        let mut rest: Vec<LoadedPlugin> = Vec::new();
        proof {
            assert(models.take(0) =~= Seq::<Plugin>::empty());
            assert(merge::plugin_models(rest@) =~= rests(models.take(0)));
            assert(before@.docs + docs(models.take(0)) =~= before@.docs);
        }
        for plugin in it: plugins
            invariant
                it.seq() == raw,
                models == merge::plugin_models(raw),
                all_wf(raw),
                before.wf(),
                self.wf(),
                all_wf(rest@),
                merge::plugin_models(rest@) == rests(models.take(it.index() as int)),
                self.installing == before.installing,
                self.files == before.files,
                self.ctl == before.ctl,
                self@.docs == before@.docs + docs(models.take(it.index() as int)),
        {
            let ghost n = it.index() as int;
            let ghost p = plugin@;
            let ghost old_rest = rest@;
            let ghost old_docs = self.doc_plugins@;
            proof {
                assert(raw[n].wf());
                assert(models.take(n + 1).drop_last() =~= models.take(n));
                assert(models.take(n + 1).last() == p);
            }
            let (kept, doc) = plugin.split_doc();
            if let Some(doc) = doc {
                let ghost d = doc@;
                self.doc_plugins.push(doc);
                assert(self@.docs =~= merge::plugin_models(old_docs).push(d));
                assert(has_doc(p));
            } else {
                assert(!has_doc(p));
            }
            rest.push(kept);
            proof {
                assert(merge::plugin_models(rest@) =~= merge::plugin_models(old_rest).push(
                    rest_of(p),
                ));
                assert(rests(models.take(n + 1)) =~= rests(models.take(n)).push(rest_of(p)));
                assert(self@.docs =~= before@.docs + docs(models.take(n + 1)));
            }
        }
        assert(models.take(models.len() as int) =~= models);
        rest
    }

    /// Plans plugins: splits off their documentation, merges the rest, and plans the packages in
    /// the order in which they come out.
    pub fn load(&mut self, plugins: Vec<LoadedPlugin>)
        requires
            old(self).wf(),
            all_wf(plugins@),
        ensures
            final(self).wf(),
            exists|out: Seq<Plugin>| #[trigger]
                planned(rests(merge::plugin_models(plugins@)), out) && final(self)@
                    == inserted_all(
                    Plan {
                        docs: old(self)@.docs + docs(merge::plugin_models(plugins@)),
                        ..old(self)@
                    },
                    out,
                ),
    {
        let ghost given = merge::plugin_models(plugins@);
        let rest = self.split_docs(plugins);
        let plan = MergePlanner::plan(rest);
        let ghost merged = merge::plugin_models(plan@);
        let out = pop_order(plan);
        let ghost order = merge::plugin_models(out@);
        proof {
            assert(merge::is_plan(rests(given), merged) && comes_out(order, merged));
            assert(planned(rests(given), order));
        }
        self.insert_all(out);
    }

    /// Plans the generated packages together with the documentation that was split off.
    pub fn load_control(&mut self, controls: Vec<LoadedPlugin>)
        requires
            old(self).wf(),
            all_wf(controls@),
        ensures
            final(self).wf(),
            exists|out: Seq<Plugin>| #[trigger]
                planned(merge::plugin_models(controls@) + old(self)@.docs, out) && final(self)@
                    == inserted_all(Plan { docs: Seq::empty(), ..old(self)@ }, out),
    {
        let ghost before = *self;
        let ghost given = controls@;
        let mut list = controls;
        let mut none: Vec<LoadedPlugin> = Vec::new();
        std::mem::swap(&mut self.doc_plugins, &mut none);
        let ghost taken = none@;
        list.append(&mut none);
        proof {
            assert(list@ == given + taken);
            assert(merge::plugin_models(list@) =~= merge::plugin_models(given) + before@.docs);
            assert(self@.docs =~= Seq::<Plugin>::empty());
            assert forall|i: int| 0 <= i < list@.len() implies (#[trigger] list@[i]).wf() by {
                if i < given.len() {
                    assert(list@[i] == given[i]);
                } else {
                    assert(list@[i] == taken[i - given.len()]);
                }
            }
        }
        let ghost all = merge::plugin_models(list@);
        let plan = MergePlanner::plan(list);
        let ghost merged = merge::plugin_models(plan@);
        let out = pop_order(plan);
        let ghost order = merge::plugin_models(out@);
        proof {
            assert(merge::is_plan(all, merged) && comes_out(order, merged));
            assert(planned(all, order));
        }
        self.insert_all(out);
    }
}

} // verus!
