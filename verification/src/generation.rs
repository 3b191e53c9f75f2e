//! Generations: what an installation publishes, under which name, and what of earlier
//! generations is kept.

use crate::digest;
use crate::order;
use crate::order::{Key, SortedMap, SortedSet};
use crate::pack_plan::{PackPlan, Package};
use crate::path;
use crate::text;
use vstd::prelude::*;

pub mod laws;

verus! {

/// How many generations are kept.
pub const RETAIN_GENERATIONS: usize = 3;

/// The schema of plans.
pub const PLAN_SCHEMA: u8 = 1;

/// The version of the merge rules that a plan was made with.
pub const PLAN_MERGE_ABI: u8 = 1;

/// The version of generation manifests.
pub const GENERATION_VERSION: u8 = 2;

/// What the runtime looks up: the file type plugins by file type and package.
pub struct RuntimeManifest {
    pub ftplugin: SortedMap<String, SortedMap<String, Vec<String>>>,
}

/// The packages of a file type with their paths, in order.
pub open spec fn inner_listing(m: SortedMap<String, Vec<String>>) -> Seq<(Seq<char>, Seq<Seq<char>>)> {
    Seq::new(m.keys().len(), |i: int| (m.keys()[i], text::strings(m.values()[i]@)))
}

/// The file types with their packages, in order.
pub open spec fn runtime_listing(m: SortedMap<String, SortedMap<String, Vec<String>>>) -> Seq<
    (Seq<char>, Seq<(Seq<char>, Seq<Seq<char>>)>),
> {
    Seq::new(m.keys().len(), |i: int| (m.keys()[i], inner_listing(m.values()[i])))
}

impl View for RuntimeManifest {
    type V = Seq<(Seq<char>, Seq<(Seq<char>, Seq<Seq<char>>)>)>;

    open spec fn view(&self) -> Self::V {
        runtime_listing(self.ftplugin)
    }
}

/// All that makes up a generation.
pub struct GenerationPlan {
    pub schema: u8,
    pub merge_abi: u8,
    /// The packages, by place.
    pub entries: Vec<String>,
    /// The generated packages.
    pub control_ids: Vec<String>,
    pub runtime: RuntimeManifest,
}

/// What a generation plan is, mathematically.
pub struct Generation {
    pub schema: u8,
    pub merge_abi: u8,
    pub entries: Seq<Seq<char>>,
    pub control_ids: Seq<Seq<char>>,
    pub runtime: Seq<(Seq<char>, Seq<(Seq<char>, Seq<Seq<char>>)>)>,
}

impl View for GenerationPlan {
    type V = Generation;

    open spec fn view(&self) -> Generation {
        Generation {
            schema: self.schema,
            merge_abi: self.merge_abi,
            entries: text::strings(self.entries@),
            control_ids: text::strings(self.control_ids@),
            runtime: self.runtime@,
        }
    }
}

pub open spec fn inner_entry_code(e: (Seq<char>, Seq<Seq<char>>)) -> Seq<u8> {
    digest::text_code(e.0) + digest::texts_code(e.1)
}

pub open spec fn inner_code(list: Seq<(Seq<char>, Seq<Seq<char>>)>) -> Seq<u8> {
    digest::list_code(list, |e: (Seq<char>, Seq<Seq<char>>)| inner_entry_code(e))
}

pub open spec fn runtime_entry_code(e: (Seq<char>, Seq<(Seq<char>, Seq<Seq<char>>)>)) -> Seq<u8> {
    digest::text_code(e.0) + inner_code(e.1)
}

pub open spec fn runtime_code(
    list: Seq<(Seq<char>, Seq<(Seq<char>, Seq<Seq<char>>)>)>,
) -> Seq<u8> {
    digest::list_code(
        list,
        |e: (Seq<char>, Seq<(Seq<char>, Seq<Seq<char>>)>)| runtime_entry_code(e),
    )
}

/// The code of a plan.
pub open spec fn generation_code(g: Generation) -> Seq<u8> {
    seq![g.schema, g.merge_abi] + (digest::texts_code(g.entries) + (digest::texts_code(
        g.control_ids,
    ) + runtime_code(g.runtime)))
}

/// The identity of a generation: 32 hexadecimal digits.
pub open spec fn generation_id(g: Generation) -> Seq<char> {
    digest::digest_text(digest::xxh3_digest(generation_code(g)))
}

proof fn lemma_inner_code()
    ensures
        digest::readable(|l: Seq<(Seq<char>, Seq<Seq<char>>)>| inner_code(l)),
{
    digest::lemma_text_code();
    digest::lemma_texts_code();
    let c0 = |s: Seq<char>| digest::text_code(s);
    let c1 = |s: Seq<Seq<char>>| digest::texts_code(s);
    let one = |e: (Seq<char>, Seq<Seq<char>>)| inner_entry_code(e);
    assert(digest::readable(one)) by {
        reveal(digest::readable);
        assert forall|
            a: (Seq<char>, Seq<Seq<char>>),
            b: (Seq<char>, Seq<Seq<char>>),
            r: Seq<u8>,
            s: Seq<u8>,
        | #[trigger] (one(a) + r) == #[trigger] (one(b) + s) implies a == b && r == s by {
            assert(one(a) + r =~= c0(a.0) + (c1(a.1) + r));
            assert(one(b) + s =~= c0(b.0) + (c1(b.1) + s));
            digest::lemma_read(c0, a.0, b.0, c1(a.1) + r, c1(b.1) + s);
            digest::lemma_read(c1, a.1, b.1, r, s);
        }
    }
    digest::lemma_list_code(one);
    assert((|l: Seq<(Seq<char>, Seq<Seq<char>>)>| digest::list_code(l, one)) =~= (|
        l: Seq<(Seq<char>, Seq<Seq<char>>)>,
    | inner_code(l)));
}

proof fn lemma_runtime_code()
    ensures
        digest::readable(
            |l: Seq<(Seq<char>, Seq<(Seq<char>, Seq<Seq<char>>)>)>| runtime_code(l),
        ),
{
    digest::lemma_text_code();
    lemma_inner_code();
    let c0 = |s: Seq<char>| digest::text_code(s);
    let c1 = |l: Seq<(Seq<char>, Seq<Seq<char>>)>| inner_code(l);
    let one = |e: (Seq<char>, Seq<(Seq<char>, Seq<Seq<char>>)>)| runtime_entry_code(e);
    assert(digest::readable(one)) by {
        reveal(digest::readable);
        assert forall|
            a: (Seq<char>, Seq<(Seq<char>, Seq<Seq<char>>)>),
            b: (Seq<char>, Seq<(Seq<char>, Seq<Seq<char>>)>),
            r: Seq<u8>,
            s: Seq<u8>,
        | #[trigger] (one(a) + r) == #[trigger] (one(b) + s) implies a == b && r == s by {
            assert(one(a) + r =~= c0(a.0) + (c1(a.1) + r));
            assert(one(b) + s =~= c0(b.0) + (c1(b.1) + s));
            digest::lemma_read(c0, a.0, b.0, c1(a.1) + r, c1(b.1) + s);
            digest::lemma_read(c1, a.1, b.1, r, s);
        }
    }
    digest::lemma_list_code(one);
    assert((|l: Seq<(Seq<char>, Seq<(Seq<char>, Seq<Seq<char>>)>)>| digest::list_code(l, one))
        =~= (|l: Seq<(Seq<char>, Seq<(Seq<char>, Seq<Seq<char>>)>)>| runtime_code(l)));
}

/// Different plans are digested from different codes: a change of packages, of generated packages
/// or of what the runtime looks up changes what the identity is made from.
pub proof fn law_generation_code(a: Generation, b: Generation)
    requires
        generation_code(a) == generation_code(b),
    ensures
        a == b,
{
    digest::lemma_texts_code();
    lemma_runtime_code();
    let c1 = |s: Seq<Seq<char>>| digest::texts_code(s);
    let c2 = |l: Seq<(Seq<char>, Seq<(Seq<char>, Seq<Seq<char>>)>)>| runtime_code(l);
    let x = generation_code(a);
    let y = generation_code(b);
    assert(x[0] == a.schema && x[1] == a.merge_abi);
    assert(y[0] == b.schema && y[1] == b.merge_abi);
    let x1 = c1(a.entries) + (c1(a.control_ids) + c2(a.runtime));
    let y1 = c1(b.entries) + (c1(b.control_ids) + c2(b.runtime));
    assert(x.skip(2) =~= x1);
    assert(y.skip(2) =~= y1);
    digest::lemma_read(
        c1,
        a.entries,
        b.entries,
        c1(a.control_ids) + c2(a.runtime),
        c1(b.control_ids) + c2(b.runtime),
    );
    digest::lemma_read(c1, a.control_ids, b.control_ids, c2(a.runtime), c2(b.runtime));
    digest::lemma_readable_injective(c2, a.runtime, b.runtime);
}

/// A generation's identity is 32 hexadecimal digits, as names of generations are.
pub proof fn law_generation_id_is_name(g: Generation)
    ensures
        is_generation_name(generation_id(g)),
{
    digest::law_digest_text(digest::xxh3_digest(generation_code(g)));
}

fn push_inner(out: &mut Vec<u8>, m: &SortedMap<String, Vec<String>>)
    ensures
        final(out)@ == old(out)@ + inner_code(inner_listing(*m)),
{
    let ghost before = out@;
    let ghost all = inner_listing(*m);
    let ghost one = |e: (Seq<char>, Seq<Seq<char>>)| inner_entry_code(e);
    let n: usize = m.len();
    let mut i: usize = 0;
    assert(all.skip(0) =~= all);
    while i < n
        invariant
            i <= n,
            n == m.keys().len(),
            all == inner_listing(*m),
            one == (|e: (Seq<char>, Seq<Seq<char>>)| inner_entry_code(e)),
            out@ + digest::list_code(all.skip(i as int), one) == before + digest::list_code(
                all,
                one,
            ),
        decreases n - i,
    {
        let ghost step = out@;
        let ghost rest = all.skip(i as int);
        out.push(1);
        digest::push_text(out, m.key_at(i).as_str());
        digest::push_texts(out, m.value_at(i));
        proof {
            assert(rest[0] == all[i as int]);
            assert(rest.drop_first() =~= all.skip(i as int + 1));
            assert(out@ + digest::list_code(rest.drop_first(), one) =~= step + digest::list_code(
                rest,
                one,
            ));
        }
        i = i + 1;
    }
    out.push(0);
    assert(all.skip(i as int).len() == 0);
    assert(out@ =~= before + inner_code(all));
}

fn push_runtime(out: &mut Vec<u8>, m: &SortedMap<String, SortedMap<String, Vec<String>>>)
    ensures
        final(out)@ == old(out)@ + runtime_code(runtime_listing(*m)),
{
    let ghost before = out@;
    let ghost all = runtime_listing(*m);
    let ghost one = |e: (Seq<char>, Seq<(Seq<char>, Seq<Seq<char>>)>)| runtime_entry_code(e);
    let n: usize = m.len();
    let mut i: usize = 0;
    assert(all.skip(0) =~= all);
    while i < n
        invariant
            i <= n,
            n == m.keys().len(),
            all == runtime_listing(*m),
            one == (|e: (Seq<char>, Seq<(Seq<char>, Seq<Seq<char>>)>)| runtime_entry_code(e)),
            out@ + digest::list_code(all.skip(i as int), one) == before + digest::list_code(
                all,
                one,
            ),
        decreases n - i,
    {
        let ghost step = out@;
        let ghost rest = all.skip(i as int);
        out.push(1);
        digest::push_text(out, m.key_at(i).as_str());
        push_inner(out, m.value_at(i));
        proof {
            assert(rest[0] == all[i as int]);
            assert(rest.drop_first() =~= all.skip(i as int + 1));
            assert(out@ + digest::list_code(rest.drop_first(), one) =~= step + digest::list_code(
                rest,
                one,
            ));
        }
        i = i + 1;
    }
    out.push(0);
    assert(all.skip(i as int).len() == 0);
    assert(out@ =~= before + runtime_code(all));
}

impl GenerationPlan {
    /// A plan of the current schema.
    pub fn new(entries: Vec<String>, control_ids: Vec<String>, runtime: RuntimeManifest) -> (plan:
        GenerationPlan)
        ensures
            plan@ == (Generation {
                schema: PLAN_SCHEMA,
                merge_abi: PLAN_MERGE_ABI,
                entries: text::strings(entries@),
                control_ids: text::strings(control_ids@),
                runtime: runtime@,
            }),
    {
        GenerationPlan {
            schema: PLAN_SCHEMA,
            merge_abi: PLAN_MERGE_ABI,
            entries,
            control_ids,
            runtime,
        }
    }

    fn code(&self) -> (code: Vec<u8>)
        ensures
            code@ == generation_code(self@),
    {
        let mut code: Vec<u8> = Vec::new();
        code.push(self.schema);
        code.push(self.merge_abi);
        digest::push_texts(&mut code, &self.entries);
        digest::push_texts(&mut code, &self.control_ids);
        push_runtime(&mut code, &self.runtime.ftplugin);
        assert(code@ =~= generation_code(self@));
        code
    }

    /// The identity of the generation.
    pub fn id(&self) -> (id: String)
        ensures
            id@ == generation_id(self@),
    {
        digest::digest_string(digest::xxh3_128(&self.code()))
    }

    /// Whether two plans are the same.
    pub fn same(&self, other: &GenerationPlan) -> (same: bool)
        ensures
            same == (self@ == other@),
    {
        let same = digest::same_bytes(&self.code(), &other.code());
        proof {
            if same {
                law_generation_code(self@, other@);
            }
        }
        same
    }
}

/// What is recorded of a published generation.
pub struct GenerationManifest {
    pub version: u8,
    pub entries: Vec<String>,
    pub generation_id: String,
    pub plan: Option<GenerationPlan>,
    pub runtime: RuntimeManifest,
}

/// The entries of a manifest.
pub fn manifest_entries(manifest: &GenerationManifest) -> (set: SortedSet<String>)
    ensures
        set.wf(),
        forall|k: Seq<char>| #[trigger]
            set.has(k) <==> text::strings(manifest.entries@).contains(k),
{
    let mut set: SortedSet<String> = SortedSet::new();
    add_entries(&mut set, &manifest.entries);
    set
}

fn add_entries(set: &mut SortedSet<String>, entries: &Vec<String>)
    requires
        old(set).wf(),
    ensures
        final(set).wf(),
        forall|k: Seq<char>| #[trigger]
            final(set).has(k) <==> old(set).has(k) || text::strings(entries@).contains(k),
{
    let ghost before = *set;
    let ghost all = text::strings(entries@);
    let mut i: usize = 0;
    while i < entries.len()
        invariant
            i <= entries@.len(),
            all == text::strings(entries@),
            set.wf(),
            forall|k: Seq<char>| #[trigger]
                set.has(k) <==> before.has(k) || all.take(i as int).contains(k),
        decreases entries@.len() - i,
    {
        let ghost now = *set;
        set.insert(entries[i].clone());
        proof {
            assert(all.take(i as int + 1) =~= all.take(i as int).push(all[i as int]));
            assert forall|k: Seq<char>| #[trigger]
                set.has(k) <==> before.has(k) || all.take(i as int + 1).contains(k) by {
                order::lemma_contains_push(all.take(i as int), all[i as int], k);
                assert(now.has(k) <==> before.has(k) || all.take(i as int).contains(k));
            }
        }
        i = i + 1;
    }
    assert(all.take(i as int) =~= all);
}

/// A name that a generation can have: 32 hexadecimal digits.
pub open spec fn is_generation_name(name: Seq<char>) -> bool {
    name.len() == 32 && forall|i: int| 0 <= i < name.len() ==> hex_digit(#[trigger] name[i])
}

/// A hexadecimal digit in either case.
pub open spec fn hex_digit(c: char) -> bool {
    ('0' <= c && c <= '9') || ('a' <= c && c <= 'f') || ('A' <= c && c <= 'F')
}

/// Whether a generation can have the name.
pub fn generation_name_ok(name: &str) -> (ok: bool)
    ensures
        ok == is_generation_name(name@),
{
    let chars = text::chars_of(name);
    if chars.len() != 32 {
        return false;
    }
    let mut i: usize = 0;
    while i < chars.len()
        invariant
            i <= chars@.len(),
            chars@ == name@,
            forall|k: int| 0 <= k < i ==> hex_digit(#[trigger] chars@[k]),
        decreases chars@.len() - i,
    {
        let c: char = chars[i];
        let hex = ('0' <= c && c <= '9') || ('a' <= c && c <= 'f') || ('A' <= c && c <= 'F');
        if !hex {
            assert(!hex_digit(chars@[i as int]));
            return false;
        }
        i = i + 1;
    }
    true
}

/// The names other than one.
pub open spec fn other_than(current: Seq<char>) -> spec_fn(Seq<char>) -> bool {
    |name: Seq<char>| name != current
}

/// The kept generations once `current` is published: it comes first, and only so many are kept.
pub open spec fn registered(list: Seq<Seq<char>>, current: Seq<char>) -> Seq<Seq<char>> {
    let all = seq![current] + list.filter(other_than(current));
    if all.len() > RETAIN_GENERATIONS {
        all.take(RETAIN_GENERATIONS as int)
    } else {
        all
    }
}

/// The kept generations once `current` is published.
pub fn update_registry(generations: &Vec<String>, current: &str) -> (list: Vec<String>)
    ensures
        text::strings(list@) == registered(text::strings(generations@), current@),
{
    let ghost all = text::strings(generations@);
    let ghost other = other_than(current@);
    let mut list: Vec<String> = Vec::new();
    list.push(current.to_owned());
    let mut i: usize = 0;
    proof {
        reveal(Seq::filter);
        assert(all.take(0).filter(other) =~= Seq::<Seq<char>>::empty());
        assert(text::strings(list@) =~= seq![current@] + all.take(0).filter(other));
    }
    while i < generations.len()
        invariant
            i <= generations@.len(),
            all == text::strings(generations@),
            other == other_than(current@),
            text::strings(list@) == seq![current@] + all.take(i as int).filter(other),
        decreases generations@.len() - i,
    {
        let ghost before = list@;
        let ghost front = all.take(i as int).filter(other);
        proof {
            reveal(Seq::filter);
            assert(all.take(i as int + 1).drop_last() =~= all.take(i as int));
            assert(all.take(i as int + 1).last() == generations@[i as int]@);
        }
        if !text::same(generations[i].as_str(), current) {
            list.push(generations[i].clone());
            proof {
                assert(text::strings(list@) =~= text::strings(before).push(all[i as int]));
                assert(seq![current@] + front.push(all[i as int]) =~= (seq![current@]
                    + front).push(all[i as int]));
            }
        }
        i = i + 1;
    }
    assert(all.take(i as int) =~= all);
    if list.len() > RETAIN_GENERATIONS {
        let ghost full = list@;
        list.truncate(RETAIN_GENERATIONS);
        assert(text::strings(list@) =~= text::strings(full).take(RETAIN_GENERATIONS as int));
    }
    list
}

/// Publishing keeps the published generation first, no generation twice, and no more than may be
/// kept.
pub proof fn law_registry(list: Seq<Seq<char>>, current: Seq<char>)
    requires
        list.no_duplicates(),
    ensures
        registered(list, current)[0] == current,
        registered(list, current).no_duplicates(),
        1 <= registered(list, current).len() <= RETAIN_GENERATIONS,
        forall|name: Seq<char>| #[trigger]
            registered(list, current).contains(name) ==> name == current || list.contains(name),
{
    let other = other_than(current);
    let rest = list.filter(other);
    lemma_filter_distinct(list, other);
    let all = seq![current] + rest;
    let kept = registered(list, current);
    assert forall|i: int| 0 <= i < rest.len() implies #[trigger] rest[i] != current && list.contains(
        rest[i],
    ) by {
        assert(rest.contains(rest[i]));
        assert(other(rest[i]));
    }
    assert(all.no_duplicates());
    assert forall|name: Seq<char>| #[trigger] kept.contains(name) implies name == current || list.contains(
        name,
    ) by {
        let k = kept.index_of(name);
        assert(kept[k] == name);
        assert(all[k] == name);
        if k > 0 {
            assert(rest[k - 1] == name);
        }
    }
}

proof fn lemma_filter_distinct(list: Seq<Seq<char>>, keep: spec_fn(Seq<char>) -> bool)
    requires
        list.no_duplicates(),
    ensures
        list.filter(keep).no_duplicates(),
        forall|x: Seq<char>| #[trigger] list.filter(keep).contains(x) ==> list.contains(x) && keep(x),
    decreases list.len(),
{
    reveal(Seq::filter);
    if list.len() > 0 {
        let front = list.drop_last();
        lemma_filter_distinct(front, keep);
        let before = front.filter(keep);
        assert forall|x: Seq<char>| #[trigger] list.filter(keep).contains(x) implies list.contains(x)
            && keep(x) by {
            if keep(list.last()) {
                order::lemma_contains_push(before, list.last(), x);
            }
            if before.contains(x) {
                assert(front.contains(x));
                let k = front.index_of(x);
                assert(list[k] == x);
            }
        }
        if keep(list.last()) && before.contains(list.last()) {
            assert(front.contains(list.last()));
            let k = front.index_of(list.last());
            assert(list[k] == list[list.len() - 1]);
        }
    }
}

/// The places of the packages.
pub open spec fn places(files: Seq<(Seq<char>, Package)>) -> Seq<Seq<char>> {
    files.map_values(|e: (Seq<char>, Package)| "opt/"@ + e.0)
}

/// The generated packages.
pub open spec fn controls(files: Seq<(Seq<char>, Package)>) -> Seq<Seq<char>>
    decreases files.len(),
{
    if files.len() == 0 {
        Seq::empty()
    } else if files.last().1.is_lazy_registration {
        controls(files.drop_last()).push(files.last().0)
    } else {
        controls(files.drop_last())
    }
}

impl PackPlan {
    /// The places of the packages, in order.
    pub fn generation_entries(&self) -> (entries: Vec<String>)
        ensures
            order::sorted_from::<String>(text::strings(entries@), places(self@.files)),
    {
        let ghost all = places(self@.files);
        let mut list: Vec<String> = Vec::new();
        let mut i: usize = 0;
        while i < self.files.len()
            invariant
                i <= self.files@.len(),
                all == places(self@.files),
                text::strings(list@) == all.take(i as int),
            decreases self.files@.len() - i,
        {
            let ghost before = list@;
            list.push(String::from_str("opt/").concat(self.files[i].0.as_str()));
            proof {
                assert(text::strings(list@) =~= text::strings(before).push(all[i as int]));
                assert(all.take(i as int + 1) =~= all.take(i as int).push(all[i as int]));
            }
            i = i + 1;
        }
        assert(all.take(i as int) =~= all);
        let ghost raw = list@;
        let sorted = order::sort_keys(list);
        assert(order::models(raw) =~= text::strings(raw));
        assert(order::models(sorted@) =~= text::strings(sorted@));
        sorted
    }

    /// The generated packages, in order.
    pub fn control_ids(&self) -> (ids: Vec<String>)
        ensures
            order::sorted_from::<String>(text::strings(ids@), controls(self@.files)),
    {
        let ghost all = self@.files;
        let mut list: Vec<String> = Vec::new();
        let mut i: usize = 0;
        proof {
            assert(all.take(0) =~= Seq::<(Seq<char>, Package)>::empty());
            assert(text::strings(list@) =~= Seq::<Seq<char>>::empty());
        }
        while i < self.files.len()
            invariant
                i <= self.files@.len(),
                all == self@.files,
                text::strings(list@) == controls(all.take(i as int)),
            decreases self.files@.len() - i,
        {
            let ghost before = list@;
            proof {
                assert(all.take(i as int + 1).drop_last() =~= all.take(i as int));
                assert(all.take(i as int + 1).last() == (self.files@[i as int].0@, self.files@[i as int].1@));
            }
            if self.files[i].1.is_lazy_registration {
                list.push(self.files[i].0.clone());
                assert(text::strings(list@) =~= text::strings(before).push(self.files@[i as int].0@));
            }
            i = i + 1;
        }
        assert(all.take(i as int) =~= all);
        let ghost raw = list@;
        let sorted = order::sort_keys(list);
        assert(order::models(raw) =~= text::strings(raw));
        assert(order::models(sorted@) =~= text::strings(sorted@));
        sorted
    }
}

/// The name under which a generation is published: the identity of its plan where that is known
/// beforehand, else its first generated package, else the identity of what was published.
pub open spec fn publication(
    desired: Option<Generation>,
    control_ids: Seq<Seq<char>>,
    published: Seq<char>,
) -> Seq<char> {
    match desired {
        Some(plan) => generation_id(plan),
        None => if control_ids.len() > 0 {
            control_ids[0]
        } else {
            published
        },
    }
}

/// What an optional plan is.
pub open spec fn plan_view(plan: Option<GenerationPlan>) -> Option<Generation> {
    match plan {
        Some(plan) => Some(plan@),
        None => None,
    }
}

/// The name under which a generation is published.
pub fn publication_name(
    desired: &Option<GenerationPlan>,
    control_ids: &Vec<String>,
    published: &str,
) -> (name: String)
    ensures
        name@ == publication(plan_view(*desired), text::strings(control_ids@), published@),
{
    match desired {
        Some(plan) => plan.id(),
        None => if control_ids.len() > 0 {
            control_ids[0].clone()
        } else {
            published.to_owned()
        },
    }
}

/// What is found of the generation that is to be published.
pub struct Observed {
    /// All packages are directories, and no links.
    pub packages_present: bool,
    /// The content of `init.lua`.
    pub init: Option<Vec<u8>>,
    /// Whether `init.lua` is a link.
    pub init_is_link: Option<bool>,
    /// The recorded manifest.
    pub manifest: Option<GenerationManifest>,
    /// The content of the loader of the generation.
    pub loader: Option<Vec<u8>>,
}

/// The data is there and has the content.
pub open spec fn has_content(data: Option<Vec<u8>>, content: Seq<u8>) -> bool {
    match data {
        Some(data) => data@ == content,
        None => false,
    }
}

/// The recorded manifest is that of the plan.
pub open spec fn is_manifest_of(
    manifest: GenerationManifest,
    entries: Seq<Seq<char>>,
    desired: Option<Generation>,
) -> bool {
    &&& manifest.version == GENERATION_VERSION
    &&& text::strings(manifest.entries@) == entries
    &&& match desired {
        Some(plan) => plan_view(manifest.plan) == Some(plan) && manifest.generation_id@
            == generation_id(plan),
        None => true,
    }
}

/// The generation that is to be published is there, complete and in use.
pub open spec fn is_current(
    observed: Observed,
    control_ids: Seq<Seq<char>>,
    entries: Seq<Seq<char>>,
    init: Seq<u8>,
    desired: Option<Generation>,
) -> bool {
    observed.packages_present && if control_ids.len() == 0 {
        has_content(observed.init, init) && observed.init_is_link == Some(false)
    } else {
        (match observed.manifest {
            Some(manifest) => is_manifest_of(manifest, entries, desired),
            None => false,
        }) && has_content(observed.loader, init) && observed.init_is_link == Some(true)
    }
}

fn same_list(a: &Vec<String>, b: &Vec<String>) -> (same: bool)
    ensures
        same == (text::strings(a@) == text::strings(b@)),
{
    proof {
        order::lemma_texts_order();
    }
    match order::compare_texts(a, b) {
        order::Order::Equal => true,
        _ => false,
    }
}

fn same_content(data: &Option<Vec<u8>>, content: &Vec<u8>) -> (same: bool)
    ensures
        same == has_content(*data, content@),
{
    match data {
        Some(data) => digest::same_bytes(data, content),
        None => false,
    }
}

fn manifest_matches(
    manifest: &GenerationManifest,
    entries: &Vec<String>,
    desired: &Option<GenerationPlan>,
) -> (matches: bool)
    ensures
        matches == is_manifest_of(*manifest, text::strings(entries@), plan_view(*desired)),
{
    if manifest.version != GENERATION_VERSION || !same_list(&manifest.entries, entries) {
        return false;
    }
    match desired {
        Some(plan) => match &manifest.plan {
            Some(recorded) => {
                let id = plan.id();
                recorded.same(plan) && text::same(manifest.generation_id.as_str(), id.as_str())
            },
            None => false,
        },
        None => true,
    }
}

/// Whether the generation that is to be published is there, complete and in use.  Whatever is
/// missing or damaged makes it not current.
pub fn generation_is_current(
    observed: &Observed,
    control_ids: &Vec<String>,
    generation_entries: &Vec<String>,
    init_content: &Vec<u8>,
    desired: &Option<GenerationPlan>,
) -> (current: bool)
    ensures
        current == is_current(
            *observed,
            text::strings(control_ids@),
            text::strings(generation_entries@),
            init_content@,
            plan_view(*desired),
        ),
{
    if !observed.packages_present {
        return false;
    }
    if control_ids.len() == 0 {
        return same_content(&observed.init, init_content) && match observed.init_is_link {
            Some(link) => !link,
            None => false,
        };
    }
    let recorded = match &observed.manifest {
        Some(manifest) => manifest_matches(manifest, generation_entries, desired),
        None => false,
    };
    recorded && same_content(&observed.loader, init_content) && match observed.init_is_link {
        Some(link) => link,
        None => false,
    }
}

/// What a publication leaves behind is current: running again has nothing to publish.
pub proof fn law_published_is_current(
    observed: Observed,
    manifest: GenerationManifest,
    plan: GenerationPlan,
    init: Seq<u8>,
)
    requires
        plan@.control_ids.len() > 0,
        observed.packages_present,
        observed.manifest == Some(manifest),
        manifest.version == GENERATION_VERSION,
        text::strings(manifest.entries@) == plan@.entries,
        plan_view(manifest.plan) == Some(plan@),
        manifest.generation_id@ == generation_id(plan@),
        has_content(observed.loader, init),
        observed.init_is_link == Some(true),
    ensures
        is_current(observed, plan@.control_ids, plan@.entries, init, Some(plan@)),
        is_current(observed, plan@.control_ids, plan@.entries, init, None),
{
}

/// The choice of the earlier generations whose packages are kept.
pub struct Retention {
    /// The places that are kept.
    pub entries: SortedSet<String>,
    /// How many generations are kept.
    pub count: usize,
    /// The generations to look at, the latest first.
    pub registry: Vec<String>,
    /// How many of them were looked at.
    pub position: usize,
    /// The generation that was published.
    pub current: String,
}

/// An earlier generation whose manifest may be looked at.
pub open spec fn eligible(name: Seq<char>, current: Seq<char>) -> bool {
    name != current && is_generation_name(name)
}

/// Where the next eligible generation is; the length if there is none.
pub open spec fn next_eligible(registry: Seq<Seq<char>>, current: Seq<char>, from: int) -> int
    decreases registry.len() - from,
{
    if from < 0 || from >= registry.len() {
        registry.len() as int
    } else if eligible(registry[from], current) {
        from
    } else {
        next_eligible(registry, current, from + 1)
    }
}

impl Retention {
    pub open spec fn wf(&self) -> bool {
        self.entries.wf() && self.position <= self.registry@.len() && self.count
            <= RETAIN_GENERATIONS
    }

    /// Starts with what was published.
    pub fn new(manifest: &GenerationManifest, current: &str, registry: Vec<String>) -> (r: Retention)
        ensures
            r.wf(),
            r.count == 1,
            r.position == 0,
            r.current@ == current@,
            r.registry == registry,
            forall|k: Seq<char>| #[trigger]
                r.entries.has(k) <==> text::strings(manifest.entries@).contains(k),
    {
        Retention {
            entries: manifest_entries(manifest),
            count: 1,
            registry,
            position: 0,
            current: current.to_owned(),
        }
    }

    /// The next generation whose manifest is to be read; nothing if enough are kept or none is
    /// left.
    pub fn next_generation(&mut self) -> (name: Option<String>)
        requires
            old(self).wf(),
        ensures
            final(self).wf(),
            final(self).entries == old(self).entries,
            final(self).count == old(self).count,
            final(self).registry == old(self).registry,
            final(self).current == old(self).current,
            match name {
                Some(name) => {
                    let at = next_eligible(
                        text::strings(old(self).registry@),
                        old(self).current@,
                        old(self).position as int,
                    );
                    &&& old(self).count < RETAIN_GENERATIONS
                    &&& at < old(self).registry@.len()
                    &&& name@ == old(self).registry@[at]@
                    &&& final(self).position == at + 1
                },
                None => old(self).count >= RETAIN_GENERATIONS || next_eligible(
                    text::strings(old(self).registry@),
                    old(self).current@,
                    old(self).position as int,
                ) == old(self).registry@.len(),
            },
    {
        if self.count >= RETAIN_GENERATIONS {
            return None;
        }
        let ghost names = text::strings(self.registry@);
        let ghost start = self.position as int;
        while self.position < self.registry.len()
            invariant
                self.wf(),
                self.entries == old(self).entries,
                self.count == old(self).count,
                self.registry == old(self).registry,
                self.current == old(self).current,
                self.count < RETAIN_GENERATIONS,
                names == text::strings(self.registry@),
                start == old(self).position,
                next_eligible(names, self.current@, start) == next_eligible(
                    names,
                    self.current@,
                    self.position as int,
                ),
            decreases self.registry@.len() - self.position,
        {
            let name = self.registry[self.position].clone();
            assert(names[self.position as int] == name@);
            self.position = self.position + 1;
            if !text::same(name.as_str(), self.current.as_str()) && generation_name_ok(
                name.as_str(),
            ) {
                return Some(name);
            }
        }
        None
    }

    /// Keeps the packages of a generation whose manifest was read.
    pub fn retain(&mut self, manifest: &GenerationManifest)
        requires
            old(self).wf(),
            old(self).count < RETAIN_GENERATIONS,
        ensures
            final(self).wf(),
            final(self).count == old(self).count + 1,
            final(self).registry == old(self).registry,
            final(self).position == old(self).position,
            final(self).current == old(self).current,
            forall|k: Seq<char>| #[trigger]
                final(self).entries.has(k) <==> old(self).entries.has(k) || text::strings(
                    manifest.entries@,
                ).contains(k),
    {
        add_entries(&mut self.entries, &manifest.entries);
        self.count = self.count + 1;
    }
}

/// The generation that a file in the directory of manifests or loaders belongs to, by its
/// extension.
pub open spec fn generation_of(file: Seq<char>, ext: Seq<char>) -> Option<Seq<char>> {
    if path::extension_of(file) == Some(ext) {
        Some(path::stem_of(file))
    } else {
        None
    }
}

/// The generation that a file belongs to, by its extension.
pub fn file_generation(file: &str, ext: &str) -> (name: Option<String>)
    ensures
        text::optional_string(name) == generation_of(file@, ext@),
{
    match path::extension(file) {
        Some(found) => if text::same(found.as_str(), ext) {
            Some(path::file_stem(file))
        } else {
            None
        },
        None => None,
    }
}

/// The generations that the files are manifests of.
pub open spec fn manifests_of(files: Seq<Seq<char>>) -> Seq<Seq<char>>
    decreases files.len(),
{
    if files.len() == 0 {
        Seq::empty()
    } else {
        let front = manifests_of(files.drop_last());
        match generation_of(files.last(), "json"@) {
            Some(name) => front.push(name),
            None => front,
        }
    }
}

/// A registry made up from the manifests that there are, in order of their names.
pub fn registry_from_files(files: &Vec<String>) -> (registry: Vec<String>)
    ensures
        order::sorted_from::<String>(
            text::strings(registry@),
            manifests_of(text::strings(files@)),
        ),
{
    let ghost all = text::strings(files@);
    let mut list: Vec<String> = Vec::new();
    let mut i: usize = 0;
    proof {
        assert(all.take(0) =~= Seq::<Seq<char>>::empty());
        assert(text::strings(list@) =~= Seq::<Seq<char>>::empty());
    }
    while i < files.len()
        invariant
            i <= files@.len(),
            all == text::strings(files@),
            text::strings(list@) == manifests_of(all.take(i as int)),
        decreases files@.len() - i,
    {
        let ghost before = list@;
        proof {
            assert(all.take(i as int + 1).drop_last() =~= all.take(i as int));
            assert(all.take(i as int + 1).last() == files@[i as int]@);
        }
        if let Some(name) = file_generation(files[i].as_str(), "json") {
            let ghost new = name@;
            list.push(name);
            assert(text::strings(list@) =~= text::strings(before).push(new));
        }
        i = i + 1;
    }
    assert(all.take(i as int) =~= all);
    let ghost raw = list@;
    let sorted = order::sort_keys(list);
    assert(order::models(raw) =~= text::strings(raw));
    assert(order::models(sorted@) =~= text::strings(sorted@));
    sorted
}

/// Some kept place is the directory or lies below it.
pub open spec fn is_reachable(entries: SortedSet<String>, root: Seq<char>, name: Seq<char>) -> bool {
    exists|k: Seq<char>| #[trigger]
        entries.has(k) && (k == root + "/"@ + name || (root + "/"@ + name + "/"@).is_prefix_of(k))
}

/// Whether a package directory is reachable from what is kept.
pub fn package_reachable(entries: &SortedSet<String>, root: &str, name: &str) -> (reachable: bool)
    ensures
        reachable == is_reachable(*entries, root@, name@),
{
    let mut own = root.to_owned();
    own.append("/");
    own.append(name);
    let below = own.clone().concat("/");
    let n: usize = entries.len();
    let mut i: usize = 0;
    while i < n
        invariant
            i <= n,
            n == entries.members().len(),
            own@ == root@ + "/"@ + name@,
            below@ == own@ + "/"@,
            forall|k: int|
                0 <= k < i ==> (#[trigger] entries.members()[k]) != own@ && !below@.is_prefix_of(
                    entries.members()[k],
                ),
        decreases n - i,
    {
        let entry = entries.at(i);
        if text::same(entry.as_str(), own.as_str()) || text::starts_with(
            entry.as_str(),
            below.as_str(),
        ) {
            assert(entries.has(entry@));
            return true;
        }
        i = i + 1;
    }
    proof {
        assert forall|k: Seq<char>| #[trigger] entries.has(k) implies k != own@
            && !below@.is_prefix_of(k) by {
            let j = entries.members().index_of(k);
            assert(entries.members()[j] == k);
        }
    }
    false
}

/// The package directory is itself a kept place.
pub open spec fn is_kept_place(entries: SortedSet<String>, root: Seq<char>, name: Seq<char>) -> bool {
    entries.has(root + "/"@ + name)
}

/// Whether a package directory is itself a kept place.  Others are removed.
pub fn package_kept(entries: &SortedSet<String>, root: &str, name: &str) -> (kept: bool)
    requires
        entries.wf(),
    ensures
        kept == is_kept_place(*entries, root@, name@),
{
    let mut own = root.to_owned();
    own.append("/");
    own.append(name);
    entries.contains(&own)
}

/// What a kept generation consists of is never removed, and is reason for no cleanup.
pub proof fn law_kept_is_reachable(entries: SortedSet<String>, root: Seq<char>, name: Seq<char>)
    requires
        entries.has(root + "/"@ + name),
    ensures
        is_reachable(entries, root, name),
{
}

/// The head of a loader that is one of the published generations.
pub const INIT_HEAD: &'static str = "-- Auto generated by rsplug\nlocal source = debug.getinfo(1, 'S').source:sub(2)\nlocal root = vim.fn.fnamemodify(vim.fn.resolve(source), ':h:h')\nvim.g.rsplug_generation = vim.fn.fnamemodify(vim.fn.resolve(source), ':t:r')\nvim.opt.packpath:prepend(root)\n\n";

/// A loader without packages, which lies in the root itself.
pub const INIT_EMPTY: &'static str = "-- Auto generated by rsplug\nlocal source = debug.getinfo(1, 'S').source:sub(2)\nlocal root = vim.fn.fnamemodify(vim.fn.resolve(source), ':h')\nvim.opt.packpath:prepend(root)\n";

/// What precedes the packages of a loader.
pub const INIT_REQUESTED: &'static str = "local requested = vim.env.RSPLUG_GENERATION\nlocal ids = { ";

/// What follows the packages of a loader.
pub const INIT_TAIL: &'static str = " }\nif requested then\n  local file = root .. '/generations/' .. requested .. '.lua'\n  if #requested == 32 and requested:match '^[0-9a-fA-F]+$' and vim.fn.filereadable(file) == 1 then\n    vim.env.RSPLUG_GENERATION = nil\n    return dofile(file)\n  end\n  vim.notify('rsplug: no such generation: ' .. requested, vim.log.levels.WARN)\nend\nfor _, id in ipairs(ids) do\n  vim.cmd.packadd(id)\nend\nlocal ok, rsplug = pcall(require, '_rsplug')\nif ok then\n  rsplug.startup()\nend\n";

/// The packages of a loader, each quoted and with a comma behind it.
pub open spec fn quoted_ids(ids: Seq<Seq<char>>) -> Seq<char>
    decreases ids.len(),
{
    if ids.len() == 0 {
        Seq::empty()
    } else {
        quoted_ids(ids.drop_last()) + "\""@ + ids.last() + "\","@
    }
}

/// The loader of a generation.  Without generated packages there is nothing to load.
pub open spec fn init_text(ids: Seq<Seq<char>>) -> Seq<char> {
    if ids.len() == 0 {
        INIT_EMPTY@
    } else {
        INIT_HEAD@ + INIT_REQUESTED@ + quoted_ids(ids) + INIT_TAIL@
    }
}

/// The loader of a generation: loads its generated packages, or the generation that the
/// environment asks for.
pub fn render_init(control_ids: &Vec<String>) -> (rendered: String)
    ensures
        rendered@ == init_text(text::strings(control_ids@)),
{
    if control_ids.len() == 0 {
        return String::from_str(INIT_EMPTY);
    }
    let ghost all = text::strings(control_ids@);
    let mut rendered = String::from_str(INIT_HEAD);
    rendered.append(INIT_REQUESTED);
    let ghost head = rendered@;
    let mut i: usize = 0;
    proof {
        assert(all.take(0) =~= Seq::<Seq<char>>::empty());
        assert(head + quoted_ids(all.take(0)) =~= head);
    }
    while i < control_ids.len()
        invariant
            i <= control_ids@.len(),
            all == text::strings(control_ids@),
            rendered@ == head + quoted_ids(all.take(i as int)),
        decreases control_ids@.len() - i,
    {
        let ghost before = quoted_ids(all.take(i as int));
        proof {
            assert(all.take(i as int + 1).drop_last() =~= all.take(i as int));
            assert(all.take(i as int + 1).last() == control_ids@[i as int]@);
        }
        rendered.append("\"");
        rendered.append(control_ids[i].as_str());
        rendered.append("\",");
        assert(rendered@ =~= head + (before + "\""@ + all[i as int] + "\","@));
        i = i + 1;
    }
    assert(all.take(i as int) =~= all);
    rendered.append(INIT_TAIL);
    rendered
}

} // verus!
