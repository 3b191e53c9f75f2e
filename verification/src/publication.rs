//! What an installation works with: made from the plan before anything is written, and recorded
//! of the generation when its packages are there.

use crate::generation;
use crate::generation::{Generation, GenerationManifest, GenerationPlan, RuntimeManifest};
use crate::install;
use crate::install::Installation;
use crate::lazy_registration;
use crate::lazy_registration::control;
use crate::lazy_registration::inputs;
use crate::lazy_registration::templates;
use crate::lazy_registration::LazyRegistration;
use crate::lazy_type::duplicate_strings;
use crate::loaded::Plugin;
use crate::merge;
use crate::order;
use crate::order::{Key, SortedMap};
use crate::pack_plan;
use crate::pack_plan::ft_index;
use crate::pack_plan::ft_index::build_ft_index_from_inventories;
use crate::pack_plan::{PackPlan, Package, Plan};
use crate::text;
use vstd::prelude::*;

verus! {

/// What an installation works with.
pub struct Prepared {
    /// The packages of each file type.
    pub ft_pairs: SortedMap<String, Vec<String>>,
    /// The places of the packages.
    pub entries: Vec<String>,
    /// The generated packages.
    pub control_ids: Vec<String>,
    /// The loader.
    pub init: Vec<u8>,
    /// The generation, if inventories tell of all its file type plugins.
    pub desired: Option<GenerationPlan>,
}

/// The plugins are those that are generated for lazy loading.
pub open spec fn is_generated(plugins: Seq<Plugin>, ctl: LazyRegistration, help: Seq<u8>) -> bool {
    if lazy_registration::registers_nothing(ctl@) {
        plugins.len() == 0
    } else {
        exists|t: inputs::TemplateInputs, texts: control::ControlTexts| #[trigger]
            templates::is_rendered(texts, ctl, t, help) && inputs::is_inputs(t, ctl) && plugins
                == control::control(ctl, text::strings(t.startup_scripts@), texts)
    }
}

/// `after` is the plan with the generated packages, and with the documentation that was split off.
pub open spec fn is_completed(
    after: Plan,
    before: Plan,
    ctl: LazyRegistration,
    help: Seq<u8>,
) -> bool {
    exists|plugins: Seq<Plugin>, out: Seq<Plugin>| #[trigger]
        pack_plan::planned(plugins + before.docs, out) && is_generated(plugins, ctl, help) && after
            == pack_plan::inserted_all(Plan { docs: Seq::empty(), ..before }, out)
}

/// Inventories tell of the file type plugins of all packages.
pub open spec fn all_indexable(
    files: Seq<(Seq<char>, Package)>,
    pairs: Map<Seq<char>, Seq<Seq<char>>>,
) -> bool {
    forall|ft: Seq<char>, id: Seq<char>| #[trigger]
        ft_index::is_pair(pairs, ft, id) ==> ft_index::indexable(files, id)
}

/// The runtime looks up this index.
pub open spec fn looks_up(
    runtime: Seq<(Seq<char>, Seq<(Seq<char>, Seq<Seq<char>>)>)>,
    index: Map<Seq<char>, Map<Seq<char>, Seq<Seq<char>>>>,
) -> bool {
    exists|m: SortedMap<String, SortedMap<String, Vec<String>>>| #[trigger]
        ft_index::index_wf(m) && ft_index::index_map(m) == index && runtime
            == generation::runtime_listing(m)
}

/// The installation works with what the packages and the file types of the plan say.
pub open spec fn is_prepared(
    p: Prepared,
    files: Seq<(Seq<char>, Package)>,
    fts: Map<Seq<char>, Seq<Seq<char>>>,
) -> bool {
    &&& p.ft_pairs.wf()
    &&& lazy_registration::trigger_map(p.ft_pairs) == fts
    &&& order::sorted_from::<String>(text::strings(p.entries@), generation::places(files))
    &&& order::sorted_from::<String>(text::strings(p.control_ids@), generation::controls(files))
    &&& p.init@ == vstd::utf8::encode_utf8(generation::init_text(text::strings(p.control_ids@)))
    &&& p.desired is Some <==> all_indexable(files, fts)
    &&& p.desired matches Some(plan) ==> {
        &&& plan@ == generation_of(p.entries, p.control_ids, plan@.runtime)
        &&& looks_up(plan@.runtime, ft_index::ft_index(files, fts))
    }
}

/// The generation of packages with what its runtime looks up.
pub open spec fn generation_of(
    entries: Vec<String>,
    control_ids: Vec<String>,
    runtime: Seq<(Seq<char>, Seq<(Seq<char>, Seq<Seq<char>>)>)>,
) -> Generation {
    Generation {
        schema: generation::PLAN_SCHEMA,
        merge_abi: generation::PLAN_MERGE_ABI,
        entries: text::strings(entries@),
        control_ids: text::strings(control_ids@),
        runtime,
    }
}

impl PackPlan {
    /// Plans the generated packages, and makes what the installation works with.
    pub fn prepare(&mut self, help: Vec<u8>) -> (prepared: Prepared)
        requires
            old(self).wf(),
        ensures
            final(self).wf(),
            is_completed(final(self)@, old(self)@, old(self).ctl, help@),
            is_prepared(prepared, final(self)@.files, old(self)@.ctl.fts),
    {
        let ghost before = *self;
        let ft_pairs = self.ctl.ft_index_pairs();
        let plugins = self.ctl.packages(help);
        let ghost generated = merge::plugin_models(plugins@);
        assert(is_generated(generated, before.ctl, help@)) by {
            if lazy_registration::registers_nothing(before.ctl@) {
                assert(generated.len() == 0);
            }
        }
        self.load_control(plugins);
        let entries = self.generation_entries();
        let control_ids = self.control_ids();
        let init = control::bytes_of(generation::render_init(&control_ids).as_str());
        let desired = match build_ft_index_from_inventories(&self.files, &ft_pairs) {
            Some(ftplugin) => Some(
                GenerationPlan::new(
                    duplicate_strings(&entries),
                    duplicate_strings(&control_ids),
                    RuntimeManifest { ftplugin },
                ),
            ),
            None => None,
        };
        Prepared { ft_pairs, entries, control_ids, init, desired }
    }
}

impl RuntimeManifest {
    /// A second index of the same.
    pub fn duplicated(&self) -> (copy: RuntimeManifest)
        ensures
            copy@ == self@,
    {
        let mut entries: Vec<(String, SortedMap<String, Vec<String>>)> = Vec::new();
        let n: usize = self.ftplugin.len();
        let mut i: usize = 0;
        while i < n
            invariant
                i <= n,
                n == self.ftplugin.keys().len(),
                entries@.len() == i,
                forall|k: int|
                    0 <= k < i ==> (#[trigger] entries@[k]).0@ == self.ftplugin.keys()[k]
                        && generation::inner_listing(entries@[k].1) == generation::inner_listing(
                        self.ftplugin.values()[k],
                    ),
            decreases n - i,
        {
            entries.push(
                (self.ftplugin.key_at(i).clone(), duplicated_paths(self.ftplugin.value_at(i))),
            );
            i = i + 1;
        }
        let copy = RuntimeManifest { ftplugin: SortedMap { entries } };
        proof {
            order::lemma_fields(copy.ftplugin);
            assert(copy@ =~= self@);
        }
        copy
    }
}

fn duplicated_paths(m: &SortedMap<String, Vec<String>>) -> (copy: SortedMap<String, Vec<String>>)
    ensures
        generation::inner_listing(copy) == generation::inner_listing(*m),
{
    let mut entries: Vec<(String, Vec<String>)> = Vec::new();
    let n: usize = m.len();
    let mut i: usize = 0;
    while i < n
        invariant
            i <= n,
            n == m.keys().len(),
            entries@.len() == i,
            forall|k: int|
                0 <= k < i ==> (#[trigger] entries@[k]).0@ == m.keys()[k] && text::strings(
                    entries@[k].1@,
                ) == text::strings(m.values()[k]@),
        decreases n - i,
    {
        entries.push((m.key_at(i).clone(), duplicate_strings(m.value_at(i))));
        i = i + 1;
    }
    let copy = SortedMap { entries };
    proof {
        order::lemma_fields(copy);
        assert(generation::inner_listing(copy) =~= generation::inner_listing(*m));
    }
    copy
}

/// What is recorded of a generation, and its name.
pub struct Recorded {
    pub manifest: GenerationManifest,
    pub name: String,
}

/// What the runtime of the generation looks up: what inventories tell, or else what was found.
pub open spec fn runtime_of(
    desired: Option<Generation>,
    found: Option<RuntimeManifest>,
) -> Seq<(Seq<char>, Seq<(Seq<char>, Seq<Seq<char>>)>)> {
    match desired {
        Some(plan) => plan.runtime,
        None => match found {
            Some(runtime) => runtime@,
            None => Seq::empty(),
        },
    }
}

impl Prepared {
    /// The record of the generation, and its name.  `found` is what a look at the packages found
    /// of their file type plugins.
    pub fn record(&self, found: Option<RuntimeManifest>) -> (r: Recorded)
        ensures
            ({
                let desired = generation::plan_view(self.desired);
                let runtime = runtime_of(desired, found);
                let plan = generation_of(self.entries, self.control_ids, runtime);
                &&& r.manifest.version == generation::GENERATION_VERSION
                &&& text::strings(r.manifest.entries@) == text::strings(self.entries@)
                &&& r.manifest.generation_id@ == generation::generation_id(plan)
                &&& generation::plan_view(r.manifest.plan) == Some(plan)
                &&& r.manifest.runtime@ == runtime
                &&& r.name@ == generation::publication(
                    desired,
                    text::strings(self.control_ids@),
                    generation::generation_id(plan),
                )
            }),
    {
        let runtime = match &self.desired {
            Some(plan) => plan.runtime.duplicated(),
            None => match found {
                Some(runtime) => runtime,
                None => {
                    let runtime = RuntimeManifest { ftplugin: SortedMap::new() };
                    assert(runtime@ =~= Seq::empty());
                    runtime
                },
            },
        };
        let copy = runtime.duplicated();
        let plan = GenerationPlan::new(
            duplicate_strings(&self.entries),
            duplicate_strings(&self.control_ids),
            copy,
        );
        let id = plan.id();
        let name = generation::publication_name(&self.desired, &self.control_ids, id.as_str());
        Recorded {
            manifest: GenerationManifest {
                version: generation::GENERATION_VERSION,
                entries: duplicate_strings(&self.entries),
                generation_id: id,
                plan: Some(plan),
                runtime,
            },
            name,
        }
    }

    /// The name under which the generation is looked for before it is published.
    pub fn expected_name(&self) -> (name: String)
        ensures
            name@ == generation::publication(
                generation::plan_view(self.desired),
                text::strings(self.control_ids@),
                Seq::empty(),
            ),
    {
        let none = String::new();
        assert(none@ =~= Seq::<char>::empty());
        generation::publication_name(&self.desired, &self.control_ids, none.as_str())
    }

    /// The installation at its beginning.
    pub fn begin(&self) -> (s: Installation)
        ensures
            s == install::started(
                self.ft_pairs.keys().len() > 0,
                self.desired is Some,
                self.entries@.len() > 0,
                self.control_ids@.len() > 0,
            ),
    {
        Installation::new(
            self.ft_pairs.len() > 0,
            self.desired.is_some(),
            self.entries.len() > 0,
            self.control_ids.len() > 0,
        )
    }
}

/// What is recorded of a generation is what the installation works with: its places are those of
/// its packages, and where inventories tell of all file type plugins, the record carries the
/// identity under which the generation is published and looked for.
pub proof fn law_record_is_expected(p: Prepared, found: Option<RuntimeManifest>)
    requires
        p.desired matches Some(plan) ==> plan@ == generation_of(
            p.entries,
            p.control_ids,
            plan@.runtime,
        ),
    ensures
        ({
            let desired = generation::plan_view(p.desired);
            let plan = generation_of(p.entries, p.control_ids, runtime_of(desired, found));
            &&& desired is Some ==> desired == Some(plan)
            &&& p.desired is Some || p.control_ids@.len() > 0 ==> generation::publication(
                desired,
                text::strings(p.control_ids@),
                generation::generation_id(plan),
            ) == generation::publication(
                desired,
                text::strings(p.control_ids@),
                Seq::empty(),
            )
        }),
{
}

/// The runtime looks up what inventories tell, whatever was found; without that what was found; and
/// without either nothing.
pub proof fn law_runtime(plan: Generation, found: RuntimeManifest, any: Option<RuntimeManifest>)
    ensures
        runtime_of(Some(plan), any) == plan.runtime,
        runtime_of(None, Some(found)) == found@,
        runtime_of(None, None).len() == 0,
{
}

/// An installation places every package, once, and nothing else; it knows which of them are
/// generated, and its plan has the same places and the same generated packages.
pub proof fn law_prepared(
    p: Prepared,
    files: Seq<(Seq<char>, Package)>,
    fts: Map<Seq<char>, Seq<Seq<char>>>,
    id: Seq<char>,
    place: Seq<char>,
)
    requires
        is_prepared(p, files, fts),
    ensures
        text::strings(p.entries@).contains(place) <==> exists|i: int|
            0 <= i < files.len() && place == "opt/"@ + (#[trigger] files[i]).0,
        p.entries@.len() == files.len(),
        text::strings(p.control_ids@).contains(id) <==> exists|i: int|
            0 <= i < files.len() && (#[trigger] files[i]).0 == id && files[i].1.is_lazy_registration,
        p.desired matches Some(plan) ==> text::strings(plan.entries@) == text::strings(p.entries@)
            && text::strings(plan.control_ids@) == text::strings(p.control_ids@),
{
    broadcast use vstd::seq_lib::group_to_multiset_ensures;

    let entries = text::strings(p.entries@);
    let controls = text::strings(p.control_ids@);
    let places = generation::places(files);
    generation::laws::law_controls(files, id);
    assert(entries.contains(place) <==> entries.to_multiset().count(place) > 0);
    assert(places.contains(place) <==> places.to_multiset().count(place) > 0);
    assert(controls.contains(id) <==> controls.to_multiset().count(id) > 0);
    assert(generation::controls(files).contains(id) <==> generation::controls(
        files,
    ).to_multiset().count(id) > 0);
    assert(entries.to_multiset().len() == entries.len());
    assert(places.to_multiset().len() == places.len());
    if places.contains(place) {
        let i = choose|i: int| 0 <= i < places.len() && places[i] == place;
        assert(place == "opt/"@ + files[i].0);
    }
    if exists|i: int| 0 <= i < files.len() && place == "opt/"@ + (#[trigger] files[i]).0 {
        let i = choose|i: int| 0 <= i < files.len() && place == "opt/"@ + (#[trigger] files[i]).0;
        assert(places[i] == place);
    }
}

/// When a plan is completed no documentation is left to plan, and what was to be installed still is.
pub proof fn law_completed(
    after: Plan,
    before: Plan,
    ctl: LazyRegistration,
    help: Seq<u8>,
    id: Seq<char>,
    i: int,
)
    requires
        is_completed(after, before, ctl, help),
    ensures
        after.docs.len() == 0,
        before.installing.contains(id) ==> after.installing.contains(id),
        0 <= i < before.files.len() ==> i < after.files.len() && after.files[i] == before.files[i],
{
    let (plugins, out) = choose|plugins: Seq<Plugin>, out: Seq<Plugin>| #[trigger]
        pack_plan::planned(plugins + before.docs, out) && is_generated(plugins, ctl, help) && after
            == pack_plan::inserted_all(Plan { docs: Seq::empty(), ..before }, out);
    let start = Plan { docs: Seq::empty(), ..before };
    lemma_kept(start, out, i);
    pack_plan::contents::law_all_are_planned(start, out, id);
}

proof fn lemma_kept(plan: Plan, list: Seq<Plugin>, i: int)
    ensures
        pack_plan::inserted_all(plan, list).docs == plan.docs,
        0 <= i < plan.files.len() ==> i < pack_plan::inserted_all(plan, list).files.len()
            && pack_plan::inserted_all(plan, list).files[i] == plan.files[i],
    decreases list.len(),
{
    if list.len() > 0 {
        lemma_kept(plan, list.drop_last(), i);
    }
}

} // verus!
