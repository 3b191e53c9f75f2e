//! Loaded plugins: the unit of installation.

use crate::config;
use crate::config::{Scripts, SetupScript};
use crate::digest;
use crate::files;
use crate::files::{FileItem, FileSource, Item, MergeType, Source};
use crate::identity;
use crate::identity::FileId;
use crate::lazy_type;
use crate::lazy_type::{Event, Lazy, LazyType, LoadEvent};
use crate::order;
use crate::order::{Key, Order, SortedMap, SortedSet};
use crate::path;
use crate::path::{Part, Path};
use vstd::prelude::*;

pub mod laws;

verus! {

/// The name of the package that collects documentation.
pub const DOC_PLUGIN_NAME: &'static str = "_rsplug:doc";

/// The identity of an installed package: a digest of all that makes up its plugin.
#[derive(Clone, Copy, Debug, PartialEq, Eq, Structural)]
pub struct PluginId {
    pub digest: u128,
}

impl PluginId {
    /// The identity as text: 32 hexadecimal digits.
    pub fn as_str(&self) -> (s: String)
        ensures
            s@ == digest::digest_text(self.digest),
    {
        digest::digest_string(self.digest)
    }
}

/// A plugin that is ready to be installed.
pub struct LoadedPlugin {
    /// The names under which it is referred to.
    pub source_names: SortedSet<String>,
    pub lazy_type: LazyType,
    /// The files to place, by path.
    pub files: SortedMap<Path, FileItem>,
    pub script: SetupScript,
    /// Its place in the load order.
    pub order: usize,
    /// Whether it may be merged.
    pub merge_enabled: bool,
    /// Whether it is generated for lazy loading.
    pub is_lazy_registration: bool,
    /// Whether `.git` belongs to the package.
    pub dotgit: bool,
}

/// What a loaded plugin is, mathematically.
pub struct Plugin {
    pub source_names: Seq<Seq<char>>,
    pub lazy: Lazy,
    pub files: Map<Seq<Part>, Item>,
    pub script: Scripts,
    pub order: int,
    pub merge_enabled: bool,
    pub is_lazy_registration: bool,
    pub dotgit: bool,
}

impl View for LoadedPlugin {
    type V = Plugin;

    open spec fn view(&self) -> Plugin {
        Plugin {
            source_names: self.source_names.members(),
            lazy: self.lazy_type@,
            files: files::files_map(self.files),
            script: self.script@,
            order: self.order as int,
            merge_enabled: self.merge_enabled,
            is_lazy_registration: self.is_lazy_registration,
            dotgit: self.dotgit,
        }
    }
}

/// The events of a lazy type are in order.
pub open spec fn lazy_wf(lazy: LazyType) -> bool {
    match lazy {
        LazyType::Start => true,
        LazyType::Opt(events) => events.wf(),
    }
}

/// The entries of a map in path order.
pub open spec fn is_listing(m: Map<Seq<Part>, Item>, list: Seq<(Seq<Part>, Item)>) -> bool {
    &&& forall|i: int, j: int|
        0 <= i < j < list.len() ==> path::path_before(
            (#[trigger] list[i]).0,
            (#[trigger] list[j]).0,
        )
    &&& forall|i: int|
        0 <= i < list.len() ==> m.contains_key((#[trigger] list[i]).0) && m[list[i].0] == list[i].1
    &&& forall|p: Seq<Part>| #[trigger]
        m.contains_key(p) ==> exists|i: int| 0 <= i < list.len() && (#[trigger] list[i]).0 == p
}

/// The entries of a map in path order.
pub open spec fn map_listing(m: Map<Seq<Part>, Item>) -> Seq<(Seq<Part>, Item)> {
    choose|list: Seq<(Seq<Part>, Item)>| is_listing(m, list)
}

pub proof fn lemma_listing_unique(
    m: Map<Seq<Part>, Item>,
    a: Seq<(Seq<Part>, Item)>,
    b: Seq<(Seq<Part>, Item)>,
)
    requires
        is_listing(m, a),
        is_listing(m, b),
    ensures
        a == b,
{
    let ka = a.map_values(|e: (Seq<Part>, Item)| e.0);
    let kb = b.map_values(|e: (Seq<Part>, Item)| e.0);
    assert forall|i: int, j: int| 0 <= i < j < ka.len() implies <Path as Key>::before(
        #[trigger] ka[i],
        #[trigger] ka[j],
    ) by {
        assert(path::path_before(a[i].0, a[j].0));
    }
    assert forall|i: int, j: int| 0 <= i < j < kb.len() implies <Path as Key>::before(
        #[trigger] kb[i],
        #[trigger] kb[j],
    ) by {
        assert(path::path_before(b[i].0, b[j].0));
    }
    assert forall|k: Seq<Part>| #[trigger] ka.contains(k) <==> kb.contains(k) by {
        if ka.contains(k) {
            let i = choose|i: int| 0 <= i < ka.len() && ka[i] == k;
            assert(a[i].0 == k);
            assert(m.contains_key(k));
            let j = choose|j: int| 0 <= j < b.len() && (#[trigger] b[j]).0 == k;
            assert(kb[j] == k);
        }
        if kb.contains(k) {
            let i = choose|i: int| 0 <= i < kb.len() && kb[i] == k;
            assert(b[i].0 == k);
            assert(m.contains_key(k));
            let j = choose|j: int| 0 <= j < a.len() && (#[trigger] a[j]).0 == k;
            assert(ka[j] == k);
        }
    }
    order::lemma_ascending_unique::<Path>(ka, kb);
    assert forall|i: int| 0 <= i < a.len() implies a[i] == b[i] by {
        assert(ka[i] == kb[i]);
        assert(a[i].0 == b[i].0);
        assert(m[a[i].0] == a[i].1);
        assert(m[b[i].0] == b[i].1);
    }
    assert(a.len() == ka.len() && b.len() == kb.len());
    assert(a =~= b);
}

pub proof fn lemma_listing(given: SortedMap<Path, FileItem>)
    requires
        given.wf(),
    ensures
        is_listing(files::files_map(given), files::listing(given)),
        map_listing(files::files_map(given)) == files::listing(given),
{
    let m = files::files_map(given);
    let list = files::listing(given);
    assert forall|i: int, j: int| 0 <= i < j < list.len() implies path::path_before(
        (#[trigger] list[i]).0,
        (#[trigger] list[j]).0,
    ) by {
        assert(<Path as Key>::before(given.keys()[i], given.keys()[j]));
    }
    assert forall|i: int| 0 <= i < list.len() implies m.contains_key((#[trigger] list[i]).0)
        && m[list[i].0] == list[i].1 by {
        given.lemma_at(i);
    }
    assert forall|p: Seq<Part>| #[trigger] m.contains_key(p) implies exists|i: int|
        0 <= i < list.len() && (#[trigger] list[i]).0 == p by {
        let i = given.keys().index_of(p);
        assert(given.keys()[i] == p);
        assert(list[i].0 == p);
    }
    assert(is_listing(m, list));
    lemma_listing_unique(m, map_listing(m), list);
}

/// What digests tell of an entry: its data where that is at hand, its identity and how it
/// merges, but not where its snapshot lies.
pub struct Trace {
    pub data: Option<Seq<u8>>,
    pub identity: FileId,
    pub merge_type: MergeType,
}

pub open spec fn trace(item: Item) -> Trace {
    Trace {
        data: match item.source {
            Source::Directory { .. } => None,
            Source::File { data } => Some(data),
        },
        identity: item.identity,
        merge_type: item.merge_type,
    }
}

/// The traces of a listing.
pub open spec fn traces(list: Seq<(Seq<Part>, Item)>) -> Seq<(Seq<Part>, Trace)> {
    list.map_values(|e: (Seq<Part>, Item)| (e.0, trace(e.1)))
}

/// The code of a key pattern.
pub open spec fn pattern_code(p: Seq<(Option<char>, Seq<Seq<char>>)>) -> Seq<u8> {
    digest::list_code(p, |e: (Option<char>, Seq<Seq<char>>)| mode_entry_code(e))
}

pub open spec fn mode_entry_code(e: (Option<char>, Seq<Seq<char>>)) -> Seq<u8> {
    identity::optional_text_code(
        match e.0 {
            Some(c) => Some(seq![c]),
            None => None,
        },
    ) + digest::texts_code(e.1)
}

/// The code of a load event.
pub open spec fn event_code(e: Event) -> Seq<u8> {
    seq![lazy_type::event_rank(e) as u8] + match e {
        Event::OnMap(p) => pattern_code(p),
        _ => digest::text_code(lazy_type::event_text(e)),
    }
}

/// The code of a lazy type.
pub open spec fn lazy_code(lazy: Lazy) -> Seq<u8> {
    match lazy {
        Lazy::Start => seq![0u8],
        Lazy::Opt(events) => seq![1u8] + digest::list_code(events, |e: Event| event_code(e)),
    }
}

/// The code of the trace of an entry.
pub open spec fn trace_code(t: Trace) -> Seq<u8> {
    digest::option_code(t.data, |d: Seq<u8>| digest::bytes_code(d)) + identity::file_id_code(
        t.identity,
    ) + digest::bool_code(t.merge_type == MergeType::Overwrite)
}

pub open spec fn listed_code(e: (Seq<Part>, Trace)) -> Seq<u8> {
    identity::path_bytes(e.0) + trace_code(e.1)
}

/// What the identity of a plugin is digested from.
pub struct Content {
    pub source_names: Seq<Seq<char>>,
    pub lazy: Lazy,
    pub files: Seq<(Seq<Part>, Trace)>,
    pub script: Scripts,
    pub order: u64,
    pub merge_enabled: bool,
    pub is_lazy_registration: bool,
    pub dotgit: bool,
}

/// The content of a plugin.
pub open spec fn content(p: Plugin) -> Content {
    Content {
        source_names: p.source_names,
        lazy: p.lazy,
        files: traces(map_listing(p.files)),
        script: p.script,
        order: p.order as u64,
        merge_enabled: p.merge_enabled,
        is_lazy_registration: p.is_lazy_registration,
        dotgit: p.dotgit,
    }
}

/// The code of a plugin's content.
pub open spec fn content_code(c: Content) -> Seq<u8> {
    digest::texts_code(c.source_names) + (lazy_code(c.lazy) + (digest::list_code(
        c.files,
        |e: (Seq<Part>, Trace)| listed_code(e),
    ) + (config::scripts_code(c.script) + settings_code(c))))
}

pub open spec fn settings_code(c: Content) -> Seq<u8> {
    digest::number_code(c.order) + (digest::bool_code(c.merge_enabled) + (digest::bool_code(
        c.is_lazy_registration,
    ) + digest::bool_code(c.dotgit)))
}

/// The identity of a plugin.
pub open spec fn id_of(p: Plugin) -> u128 {
    digest::xxh3_digest(content_code(content(p)))
}

proof fn lemma_pattern_code()
    ensures
        digest::readable(|p: Seq<(Option<char>, Seq<Seq<char>>)>| pattern_code(p)),
{
    identity::lemma_optional_text_code();
    digest::lemma_texts_code();
    let c0 = |s: Option<Seq<char>>| identity::optional_text_code(s);
    let c1 = |s: Seq<Seq<char>>| digest::texts_code(s);
    let one = |e: (Option<char>, Seq<Seq<char>>)| mode_entry_code(e);
    assert forall|
        a: (Option<char>, Seq<Seq<char>>),
        b: (Option<char>, Seq<Seq<char>>),
        r: Seq<u8>,
        s: Seq<u8>,
    | #[trigger] (one(a) + r) == #[trigger] (one(b) + s) implies a == b && r == s by {
        let ma: Option<Seq<char>> = match a.0 {
            Some(c) => Some(seq![c]),
            None => None,
        };
        let mb: Option<Seq<char>> = match b.0 {
            Some(c) => Some(seq![c]),
            None => None,
        };
        assert(one(a) + r =~= c0(ma) + (c1(a.1) + r));
        assert(one(b) + s =~= c0(mb) + (c1(b.1) + s));
        digest::lemma_read(c0, ma, mb, c1(a.1) + r, c1(b.1) + s);
        digest::lemma_read(c1, a.1, b.1, r, s);
        if let (Some(x), Some(y)) = (a.0, b.0) {
            assert(seq![x][0] == seq![y][0]);
        }
    }
    reveal(digest::readable);
    digest::lemma_list_code(one);
    let all = |p: Seq<(Option<char>, Seq<Seq<char>>)>| digest::list_code(p, one);
    let wanted = |p: Seq<(Option<char>, Seq<Seq<char>>)>| pattern_code(p);
    assert(all =~= wanted);
}

proof fn lemma_event_code()
    ensures
        digest::readable(|e: Event| event_code(e)),
{
    lemma_pattern_code();
    digest::lemma_text_code();
    let c0 = |p: Seq<(Option<char>, Seq<Seq<char>>)>| pattern_code(p);
    let c1 = |s: Seq<char>| digest::text_code(s);
    let one = |e: Event| event_code(e);
    assert forall|a: Event, b: Event, r: Seq<u8>, s: Seq<u8>| #[trigger] (one(a) + r) == #[trigger] (one(b)
        + s) implies a == b && r == s by {
        let x = one(a) + r;
        let y = one(b) + s;
        assert(x[0] == y[0]);
        assert(x[0] == lazy_type::event_rank(a) as u8 && y[0] == lazy_type::event_rank(b) as u8);
        assert(lazy_type::event_rank(a) == lazy_type::event_rank(b));
        if let (Event::OnMap(p), Event::OnMap(q)) = (a, b) {
            assert(x.skip(1) =~= c0(p) + r);
            assert(y.skip(1) =~= c0(q) + s);
            digest::lemma_read(c0, p, q, r, s);
        } else {
            let p = lazy_type::event_text(a);
            let q = lazy_type::event_text(b);
            assert(x.skip(1) =~= c1(p) + r);
            assert(y.skip(1) =~= c1(q) + s);
            digest::lemma_read(c1, p, q, r, s);
        }
    }
    reveal(digest::readable);
}

proof fn lemma_lazy_code()
    ensures
        digest::readable(|l: Lazy| lazy_code(l)),
{
    lemma_event_code();
    let one = |e: Event| event_code(e);
    digest::lemma_list_code(one);
    let list = |events: Seq<Event>| digest::list_code(events, one);
    let code = |l: Lazy| lazy_code(l);
    assert forall|a: Lazy, b: Lazy, r: Seq<u8>, s: Seq<u8>| #[trigger] (code(a) + r) == #[trigger] (code(b)
        + s) implies a == b && r == s by {
        let x = code(a) + r;
        let y = code(b) + s;
        assert(x[0] == y[0]);
        match (a, b) {
            (Lazy::Start, Lazy::Start) => {
                assert(x.skip(1) =~= r);
                assert(y.skip(1) =~= s);
            },
            (Lazy::Opt(p), Lazy::Opt(q)) => {
                assert(x.skip(1) =~= list(p) + r);
                assert(y.skip(1) =~= list(q) + s);
                digest::lemma_read(list, p, q, r, s);
            },
            _ => {
                assert(x[0] == code(a)[0]);
                assert(y[0] == code(b)[0]);
            },
        }
    }
    reveal(digest::readable);
}

proof fn lemma_listed_parts(e: (Seq<Part>, Trace), r: Seq<u8>)
    ensures
        listed_code(e) + r == identity::path_bytes(e.0) + (digest::option_code(
            e.1.data,
            |d: Seq<u8>| digest::bytes_code(d),
        ) + (identity::file_id_code(e.1.identity) + (digest::bool_code(
            e.1.merge_type == MergeType::Overwrite,
        ) + r))),
{
    let c1 = digest::option_code(e.1.data, |d: Seq<u8>| digest::bytes_code(d));
    let c2 = identity::file_id_code(e.1.identity);
    let c3 = digest::bool_code(e.1.merge_type == MergeType::Overwrite);
    assert(listed_code(e) + r =~= identity::path_bytes(e.0) + (c1 + (c2 + (c3 + r))));
}

#[verifier::spinoff_prover]
proof fn lemma_listed_read(a: (Seq<Part>, Trace), b: (Seq<Part>, Trace), r: Seq<u8>, s: Seq<u8>)
    requires
        listed_code(a) + r == listed_code(b) + s,
    ensures
        a == b,
        r == s,
{
    identity::lemma_path_bytes();
    identity::lemma_file_id_code();
    digest::lemma_bytes_code();
    digest::lemma_bool_code();
    let bytes = |d: Seq<u8>| digest::bytes_code(d);
    digest::lemma_option_code(bytes);
    let c0 = |p: Seq<Part>| identity::path_bytes(p);
    let c1 = |d: Option<Seq<u8>>| digest::option_code(d, bytes);
    let c2 = |id: FileId| identity::file_id_code(id);
    let c3 = |b: bool| digest::bool_code(b);
    let oa = a.1.merge_type == MergeType::Overwrite;
    let ob = b.1.merge_type == MergeType::Overwrite;
    let a3 = c3(oa) + r;
    let b3 = c3(ob) + s;
    let a2 = c2(a.1.identity) + a3;
    let b2 = c2(b.1.identity) + b3;
    let a1 = c1(a.1.data) + a2;
    let b1 = c1(b.1.data) + b2;
    lemma_listed_parts(a, r);
    lemma_listed_parts(b, s);
    digest::lemma_read(c0, a.0, b.0, a1, b1);
    digest::lemma_read(c1, a.1.data, b.1.data, a2, b2);
    digest::lemma_read(c2, a.1.identity, b.1.identity, a3, b3);
    digest::lemma_read(c3, oa, ob, r, s);
    assert(a.1.merge_type == b.1.merge_type);
}

proof fn lemma_listed_code()
    ensures
        digest::readable(|e: (Seq<Part>, Trace)| listed_code(e)),
{
    let one = |e: (Seq<Part>, Trace)| listed_code(e);
    assert forall|a: (Seq<Part>, Trace), b: (Seq<Part>, Trace), r: Seq<u8>, s: Seq<u8>| #[trigger] (one(
        a,
    ) + r) == #[trigger] (one(b) + s) implies a == b && r == s by {
        lemma_listed_read(a, b, r, s);
    }
    reveal(digest::readable);
}

proof fn lemma_scripts_code()
    ensures
        digest::readable(|s: Scripts| config::scripts_code(s)),
{
    digest::lemma_texts_code();
    let c = |s: Seq<Seq<char>>| digest::texts_code(s);
    let code = |s: Scripts| config::scripts_code(s);
    assert forall|a: Scripts, b: Scripts, r: Seq<u8>, s: Seq<u8>| #[trigger] (code(a) + r) == #[trigger] (code(
        b,
    ) + s) implies a == b && r == s by {
        let a2 = c(a.lua_before) + r;
        let b2 = c(b.lua_before) + s;
        let a1 = c(a.lua_after) + a2;
        let b1 = c(b.lua_after) + b2;
        assert(code(a) + r =~= c(a.lua_start) + a1);
        assert(code(b) + s =~= c(b.lua_start) + b1);
        digest::lemma_read(c, a.lua_start, b.lua_start, a1, b1);
        digest::lemma_read(c, a.lua_after, b.lua_after, a2, b2);
        digest::lemma_read(c, a.lua_before, b.lua_before, r, s);
    }
    reveal(digest::readable);
}

proof fn lemma_settings_code(a: Content, b: Content)
    requires
        settings_code(a) == settings_code(b),
    ensures
        a.order == b.order,
        a.merge_enabled == b.merge_enabled,
        a.is_lazy_registration == b.is_lazy_registration,
        a.dotgit == b.dotgit,
{
    digest::lemma_number_code();
    digest::lemma_bool_code();
    let c4 = |n: u64| digest::number_code(n);
    let c5 = |b: bool| digest::bool_code(b);
    let a6 = c5(a.is_lazy_registration) + c5(a.dotgit);
    let b6 = c5(b.is_lazy_registration) + c5(b.dotgit);
    let a5 = c5(a.merge_enabled) + a6;
    let b5 = c5(b.merge_enabled) + b6;
    digest::lemma_read(c4, a.order, b.order, a5, b5);
    digest::lemma_read(c5, a.merge_enabled, b.merge_enabled, a6, b6);
    digest::lemma_read(
        c5,
        a.is_lazy_registration,
        b.is_lazy_registration,
        c5(a.dotgit),
        c5(b.dotgit),
    );
    digest::lemma_readable_injective(c5, a.dotgit, b.dotgit);
}

/// Every part of a plugin's content is reflected in what its identity is digested from: plugins
/// of different content are digested from different codes.
pub proof fn law_content_code(a: Content, b: Content)
    requires
        content_code(a) == content_code(b),
    ensures
        a == b,
{
    digest::lemma_texts_code();
    lemma_lazy_code();
    lemma_listed_code();
    lemma_scripts_code();
    let one = |e: (Seq<Part>, Trace)| listed_code(e);
    digest::lemma_list_code(one);
    let c0 = |s: Seq<Seq<char>>| digest::texts_code(s);
    let c1 = |l: Lazy| lazy_code(l);
    let c2 = |l: Seq<(Seq<Part>, Trace)>| digest::list_code(l, one);
    let c3 = |s: Scripts| config::scripts_code(s);
    let a3 = c3(a.script) + settings_code(a);
    let b3 = c3(b.script) + settings_code(b);
    let a2 = c2(a.files) + a3;
    let b2 = c2(b.files) + b3;
    let a1 = c1(a.lazy) + a2;
    let b1 = c1(b.lazy) + b2;
    digest::lemma_read(c0, a.source_names, b.source_names, a1, b1);
    digest::lemma_read(c1, a.lazy, b.lazy, a2, b2);
    digest::lemma_read(c2, a.files, b.files, a3, b3);
    digest::lemma_read(c3, a.script, b.script, settings_code(a), settings_code(b));
    lemma_settings_code(a, b);
}

/// The identity of a plugin does not depend on where its snapshots lie, nor on their inventories.
pub proof fn law_id_ignores_placement(a: Plugin, b: Plugin)
    requires
        a.source_names == b.source_names,
        a.lazy == b.lazy,
        a.script == b.script,
        a.order == b.order,
        a.merge_enabled == b.merge_enabled,
        a.is_lazy_registration == b.is_lazy_registration,
        a.dotgit == b.dotgit,
        is_listing(a.files, map_listing(a.files)),
        a.files.dom() == b.files.dom(),
        forall|p: Seq<Part>| #[trigger]
            a.files.contains_key(p) ==> trace(a.files[p]) == trace(b.files[p]),
    ensures
        id_of(a) == id_of(b),
{
    let la = map_listing(a.files);
    let lb = la.map_values(|e: (Seq<Part>, Item)| (e.0, b.files[e.0]));
    assert(is_listing(b.files, lb)) by {
        assert forall|i: int, j: int| 0 <= i < j < lb.len() implies path::path_before(
            (#[trigger] lb[i]).0,
            (#[trigger] lb[j]).0,
        ) by {
            assert(path::path_before(la[i].0, la[j].0));
        }
        assert forall|i: int| 0 <= i < lb.len() implies b.files.contains_key((#[trigger] lb[i]).0)
            && b.files[lb[i].0] == lb[i].1 by {
            assert(a.files.contains_key(la[i].0));
        }
        assert forall|p: Seq<Part>| #[trigger] b.files.contains_key(p) implies exists|i: int|
            0 <= i < lb.len() && (#[trigger] lb[i]).0 == p by {
            assert(a.files.contains_key(p));
            let i = choose|i: int| 0 <= i < la.len() && (#[trigger] la[i]).0 == p;
            assert(lb[i].0 == p);
        }
    }
    lemma_listing_unique(b.files, map_listing(b.files), lb);
    assert(traces(la) =~= traces(lb)) by {
        assert forall|i: int| 0 <= i < la.len() implies traces(la)[i] == traces(lb)[i] by {
            assert(a.files.contains_key(la[i].0));
        }
    }
}

/// One step of coding a list.
proof fn lemma_list_pushed<T>(
    before: Seq<u8>,
    all: Seq<T>,
    i: int,
    code: spec_fn(T) -> Seq<u8>,
    step: Seq<u8>,
    out: Seq<u8>,
)
    requires
        0 <= i < all.len(),
        before + digest::list_code(all, code) == step + digest::list_code(all.skip(i), code),
        out == step + (seq![1u8] + code(all[i])),
    ensures
        before + digest::list_code(all, code) == out + digest::list_code(all.skip(i + 1), code),
{
    let rest = all.skip(i);
    assert(rest[0] == all[i]);
    assert(rest.drop_first() =~= all.skip(i + 1));
    assert(out + digest::list_code(all.skip(i + 1), code) =~= step + digest::list_code(rest, code));
}

fn push_pattern(out: &mut Vec<u8>, p: &lazy_type::KeyPattern)
    ensures
        final(out)@ == old(out)@ + pattern_code(lazy_type::pattern_model(*p)),
{
    let ghost before = out@;
    let ghost all = lazy_type::pattern_model(*p);
    let ghost one = |e: (Option<char>, Seq<Seq<char>>)| mode_entry_code(e);
    let n: usize = p.0.len();
    let mut i: usize = 0;
    assert(all.skip(0) =~= all);
    while i < n
        invariant
            i <= n,
            n == all.len(),
            n == p.0.keys().len(),
            all == lazy_type::pattern_model(*p),
            one == |e: (Option<char>, Seq<Seq<char>>)| mode_entry_code(e),
            before + digest::list_code(all, one) == out@ + digest::list_code(
                all.skip(i as int),
                one,
            ),
        decreases n - i,
    {
        let ghost step = out@;
        let mode = p.0.key_at(i);
        out.push(1);
        let ghost tagged = out@;
        match mode.0 {
            None => {
                out.push(0);
            },
            Some(_) => {
                out.push(1);
                let s = mode.to_text();
                digest::push_text(out, s.as_str());
            },
        }
        proof {
            let m: Option<Seq<char>> = match all[i as int].0 {
                Some(c) => Some(seq![c]),
                None => None,
            };
            assert(out@ =~= tagged + identity::optional_text_code(m));
        }
        digest::push_texts(out, p.0.value_at(i));
        proof {
            assert(out@ =~= step + (seq![1u8] + one(all[i as int])));
            lemma_list_pushed(before, all, i as int, one, step, out@);
        }
        i = i + 1;
    }
    out.push(0);
    assert(all.skip(i as int).len() == 0);
    assert(out@ =~= before + pattern_code(all));
}

fn push_event(out: &mut Vec<u8>, event: &LoadEvent)
    ensures
        final(out)@ == old(out)@ + event_code(event.model()),
{
    let ghost before = out@;
    match event {
        LoadEvent::Autocmd(s) => {
            out.push(0);
            digest::push_text(out, s.as_str());
        },
        LoadEvent::UserCmd(s) => {
            out.push(1);
            digest::push_text(out, s.as_str());
        },
        LoadEvent::FileType(s) => {
            out.push(2);
            digest::push_text(out, s.as_str());
        },
        LoadEvent::VimFunc(s) => {
            out.push(3);
            digest::push_text(out, s.as_str());
        },
        LoadEvent::OnSource(s) => {
            out.push(4);
            digest::push_text(out, s.as_str());
        },
        LoadEvent::OnMap(p) => {
            out.push(5);
            push_pattern(out, p);
        },
        LoadEvent::LuaModule(s) => {
            out.push(6);
            digest::push_text(out, s.as_str());
        },
    }
    assert(out@ =~= before + event_code(event.model()));
}

fn push_lazy(out: &mut Vec<u8>, lazy: &LazyType)
    ensures
        final(out)@ == old(out)@ + lazy_code(lazy@),
{
    let ghost before = out@;
    match lazy {
        LazyType::Start => {
            out.push(0);
            assert(out@ =~= before + lazy_code(lazy@));
        },
        LazyType::Opt(events) => {
            out.push(1);
            let ghost start = out@;
            let ghost all = events.members();
            let ghost one = |e: Event| event_code(e);
            let n: usize = events.len();
            let mut i: usize = 0;
            assert(all.skip(0) =~= all);
            while i < n
                invariant
                    i <= n,
                    n == all.len(),
                    all == events.members(),
                    one == |e: Event| event_code(e),
                    start + digest::list_code(all, one) == out@ + digest::list_code(
                        all.skip(i as int),
                        one,
                    ),
                decreases n - i,
            {
                let ghost step = out@;
                out.push(1);
                push_event(out, events.at(i));
                proof {
                    assert(out@ =~= step + (seq![1u8] + one(all[i as int])));
                    lemma_list_pushed(start, all, i as int, one, step, out@);
                }
                i = i + 1;
            }
            out.push(0);
            assert(all.skip(i as int).len() == 0);
            assert(out@ =~= start + digest::list_code(all, one));
            assert(start =~= before + seq![1u8]);
            assert(lazy_code(lazy@) == seq![1u8] + digest::list_code(all, one));
            assert(out@ =~= before + lazy_code(lazy@));
        },
    }
}

fn push_item(out: &mut Vec<u8>, item: &FileItem)
    ensures
        final(out)@ == old(out)@ + trace_code(trace(item@)),
{
    let ghost before = out@;
    match &*item.source {
        FileSource::Directory { .. } => {
            out.push(0);
        },
        FileSource::File { data } => {
            out.push(1);
            digest::push_bytes(out, data.as_slice());
        },
    }
    proof {
        let bytes = |d: Seq<u8>| digest::bytes_code(d);
        assert(out@ =~= before + digest::option_code(trace(item@).data, bytes));
    }
    item.identity.push_code(out);
    digest::push_bool(out, item.merge_type == MergeType::Overwrite);
    assert(out@ =~= before + trace_code(trace(item@)));
}

fn push_files(out: &mut Vec<u8>, given: &SortedMap<Path, FileItem>)
    ensures
        final(out)@ == old(out)@ + digest::list_code(
            traces(files::listing(*given)),
            |e: (Seq<Part>, Trace)| listed_code(e),
        ),
{
    let ghost before = out@;
    let ghost all = traces(files::listing(*given));
    let ghost one = |e: (Seq<Part>, Trace)| listed_code(e);
    let n: usize = given.len();
    let mut i: usize = 0;
    assert(all.skip(0) =~= all);
    while i < n
        invariant
            i <= n,
            n == all.len(),
            n == given.keys().len(),
            all == traces(files::listing(*given)),
            one == |e: (Seq<Part>, Trace)| listed_code(e),
            before + digest::list_code(all, one) == out@ + digest::list_code(
                all.skip(i as int),
                one,
            ),
        decreases n - i,
    {
        let ghost step = out@;
        out.push(1);
        identity::push_path(out, given.key_at(i));
        push_item(out, given.value_at(i));
        proof {
            assert(all[i as int] == (given.keys()[i as int], trace(given.values()[i as int]@)));
            assert(out@ =~= step + (seq![1u8] + one(all[i as int])));
            lemma_list_pushed(before, all, i as int, one, step, out@);
        }
        i = i + 1;
    }
    out.push(0);
    assert(all.skip(i as int).len() == 0);
    assert(out@ =~= before + digest::list_code(all, one));
}

proof fn lemma_four(a: Seq<u8>, b: Seq<u8>, c: Seq<u8>, d: Seq<u8>, e: Seq<u8>)
    ensures
        a + b + c + d + e == a + (b + (c + (d + e))),
{
    assert(a + b + c + d + e =~= a + (b + (c + (d + e))));
}

/// Two packages may become one: they load on the same occasion, both or neither are generated,
/// and, unless generated, both may be merged; and their files can be merged.
pub open spec fn combinable(a: Plugin, b: Plugin) -> bool {
    &&& a.lazy == b.lazy
    &&& a.is_lazy_registration == b.is_lazy_registration
    &&& a.is_lazy_registration || (a.merge_enabled && b.merge_enabled)
    &&& files::packages_mergeable(a.files, b.files)
}

/// Whether two packages may become one does not depend on which comes first.
pub proof fn law_combinable_symmetric(a: Plugin, b: Plugin)
    ensures
        combinable(a, b) == combinable(b, a),
{
    files::lemma_packages_symmetric(a.files, b.files);
}

/// All members of both lists, in order.
pub open spec fn union_texts(a: Seq<Seq<char>>, b: Seq<Seq<char>>) -> Seq<Seq<char>> {
    choose|all: Seq<Seq<char>>| config::united(all, a, b)
}

pub open spec fn union_scripts(a: Scripts, b: Scripts) -> Scripts {
    Scripts {
        lua_start: union_texts(a.lua_start, b.lua_start),
        lua_after: union_texts(a.lua_after, b.lua_after),
        lua_before: union_texts(a.lua_before, b.lua_before),
    }
}

/// The merged files of two packages.
pub open spec fn union_map(a: Map<Seq<Part>, Item>, b: Map<Seq<Part>, Item>) -> Map<
    Seq<Part>,
    Item,
> {
    choose|done: Map<Seq<Part>, Item>| files::files_united(a, map_listing(b), done)
}

/// What two packages become.
pub open spec fn combined(a: Plugin, b: Plugin) -> Plugin {
    Plugin {
        source_names: union_texts(a.source_names, b.source_names),
        lazy: a.lazy,
        files: union_map(a.files, b.files),
        script: union_scripts(a.script, b.script),
        order: if a.order <= b.order {
            a.order
        } else {
            b.order
        },
        merge_enabled: a.merge_enabled,
        is_lazy_registration: a.is_lazy_registration,
        dotgit: a.dotgit || b.dotgit,
    }
}

pub proof fn lemma_union_texts(all: Seq<Seq<char>>, a: Seq<Seq<char>>, b: Seq<Seq<char>>)
    requires
        config::united(all, a, b),
    ensures
        union_texts(a, b) == all,
{
    let chosen = union_texts(a, b);
    assert(config::united(chosen, a, b));
    assert forall|k: Seq<char>| #[trigger] chosen.contains(k) <==> all.contains(k) by {}
    order::lemma_ascending_unique::<String>(chosen, all);
}

/// The path lies in the documentation directory.
pub open spec fn in_doc(p: Seq<Part>) -> bool {
    seq![Part::Normal("doc"@)].is_prefix_of(p) && p != seq![Part::Normal("doc"@)]
}

/// The entries outside the documentation directory.
pub open spec fn without_doc(m: Map<Seq<Part>, Item>) -> Map<Seq<Part>, Item> {
    Map::new(|p: Seq<Part>| m.contains_key(p) && !in_doc(p), |p: Seq<Part>| m[p])
}

/// The entries of the documentation directory, which may replace each other.
pub open spec fn only_doc(m: Map<Seq<Part>, Item>) -> Map<Seq<Part>, Item> {
    Map::new(
        |p: Seq<Part>| m.contains_key(p) && in_doc(p),
        |p: Seq<Part>|
            Item {
                source: m[p].source,
                identity: m[p].identity,
                merge_type: MergeType::Overwrite,
            },
    )
}

/// A documentation package with these files.
pub open spec fn doc_plugin(m: Map<Seq<Part>, Item>) -> Plugin {
    Plugin {
        source_names: seq![DOC_PLUGIN_NAME@],
        lazy: Lazy::Start,
        files: m,
        script: Scripts {
            lua_start: Seq::empty(),
            lua_after: Seq::empty(),
            lua_before: Seq::empty(),
        },
        order: usize::MAX as int,
        merge_enabled: true,
        is_lazy_registration: true,
        dotgit: false,
    }
}

/// Splitting off the documentation loses no file: each is in one part or the other.
pub proof fn law_split_doc_complete(m: Map<Seq<Part>, Item>, p: Seq<Part>)
    ensures
        m.contains_key(p) <==> without_doc(m).contains_key(p) || only_doc(m).contains_key(p),
        !(without_doc(m).contains_key(p) && only_doc(m).contains_key(p)),
{
}

/// Packages of the set of `a` come out before those of `b`: later lazy types first, and of one
/// lazy type the smaller order first.
pub open spec fn comes_out_before(a: Plugin, b: Plugin) -> bool {
    lazy_type::lazy_order()(b.lazy, a.lazy) || (a.lazy == b.lazy && a.order < b.order)
}

impl LoadedPlugin {
    /// All parts are well formed.
    pub open spec fn wf(&self) -> bool {
        &&& self.source_names.wf()
        &&& lazy_wf(self.lazy_type)
        &&& files::files_wf(self.files)
        &&& self.script.wf()
    }

    /// The identity of the plugin.
    pub fn plugin_id(&self) -> (id: PluginId)
        requires
            self.wf(),
        ensures
            id.digest == id_of(self@),
    {
        let ghost c = content(self@);
        let mut code: Vec<u8> = Vec::new();
        digest::push_texts(&mut code, &self.source_names.members);
        proof {
            order::lemma_set_members(self.source_names);
            assert(code@ =~= digest::texts_code(c.source_names));
        }
        let ghost s0 = code@;
        push_lazy(&mut code, &self.lazy_type);
        let ghost s1 = code@;
        proof {
            lemma_listing(self.files);
        }
        push_files(&mut code, &self.files);
        let ghost s2 = code@;
        self.script.push_code(&mut code);
        let ghost s3 = code@;
        digest::push_number(&mut code, self.order);
        digest::push_bool(&mut code, self.merge_enabled);
        digest::push_bool(&mut code, self.is_lazy_registration);
        digest::push_bool(&mut code, self.dotgit);
        proof {
            let list = digest::list_code(c.files, |e: (Seq<Part>, Trace)| listed_code(e));
            lemma_four(
                s3,
                digest::number_code(c.order),
                digest::bool_code(c.merge_enabled),
                digest::bool_code(c.is_lazy_registration),
                digest::bool_code(c.dotgit),
            );
            lemma_four(
                s0,
                lazy_code(c.lazy),
                list,
                config::scripts_code(c.script),
                settings_code(c),
            );
        }
        PluginId { digest: digest::xxh3_128(&code) }
    }

    /// Where the snapshot of the first listed entry lies; nothing if it is data at hand.
    pub fn snapshot_root(&self) -> (root: Option<&Path>)
        ensures
            match root {
                Some(root) => files::listing(self.files).len() > 0 && match files::listing(
                    self.files,
                )[0].1.source {
                    Source::Directory { root: r, .. } => root@ == r,
                    Source::File { .. } => false,
                },
                None => files::listing(self.files).len() == 0 || files::listing(
                    self.files,
                )[0].1.source is File,
            },
    {
        if self.files.is_empty() {
            return None;
        }
        let item = self.files.value_at(0);
        assert(files::listing(self.files)[0].1 == item@);
        match &*item.source {
            FileSource::Directory { root, .. } => Some(root),
            FileSource::File { .. } => None,
        }
    }

    /// Compares plugins by the order in which they come out of the set of plugins.
    pub fn compare(&self, other: &LoadedPlugin) -> (order: Order)
        ensures
            match order {
                Order::Less => comes_out_before(self@, other@),
                Order::Equal => self@.lazy == other@.lazy && self@.order == other@.order,
                Order::Greater => comes_out_before(other@, self@),
            },
    {
        match self.lazy_type.compare(&other.lazy_type) {
            Order::Less => Order::Greater,
            Order::Greater => Order::Less,
            Order::Equal => {
                if self.order < other.order {
                    Order::Less
                } else if other.order < self.order {
                    Order::Greater
                } else {
                    Order::Equal
                }
            },
        }
    }

    /// Whether two packages may become one.
    pub fn can_add(&self, rhs: &LoadedPlugin) -> (can: bool)
        requires
            self.wf(),
            rhs.wf(),
        ensures
            can == combinable(self@, rhs@),
    {
        proof {
            lazy_type::lemma_lazy_order();
        }
        let same_lazy = match self.lazy_type.compare(&rhs.lazy_type) {
            Order::Equal => true,
            _ => false,
        };
        if !same_lazy {
            return false;
        }
        if self.is_lazy_registration != rhs.is_lazy_registration || !(self.is_lazy_registration || (
        self.merge_enabled && rhs.merge_enabled)) {
            return false;
        }
        files::dirs_mergeable(&self.files, &rhs.files)
    }

    /// Makes one package of two if that is possible, and hands both back otherwise.
    pub fn add(self, rhs: LoadedPlugin) -> (sum: (LoadedPlugin, Option<LoadedPlugin>))
        requires
            self.wf(),
            rhs.wf(),
        ensures
            sum.0.wf(),
            sum.1 matches Some(rest) ==> rest.wf(),
            match sum.1 {
                None => combinable(self@, rhs@) && sum.0@ == combined(self@, rhs@),
                Some(rest) => !combinable(self@, rhs@) && sum.0@ == self@ && rest@ == rhs@,
            },
    {
        if self.can_add(&rhs) {
            (self.combine(rhs), None)
        } else {
            (self, Some(rhs))
        }
    }

    /// Makes one package of two that may become one.
    pub(crate) fn combine(self, rhs: LoadedPlugin) -> (sum: LoadedPlugin)
        requires
            self.wf(),
            rhs.wf(),
            combinable(self@, rhs@),
        ensures
            sum.wf(),
            sum@ == combined(self@, rhs@),
    {
        let ghost a = self@;
        let ghost b = rhs@;
        let LoadedPlugin {
            source_names,
            lazy_type,
            files: lfiles,
            script,
            order,
            merge_enabled,
            is_lazy_registration,
            dotgit,
        } = self;
        let LoadedPlugin {
            source_names: r_names,
            files: rfiles,
            script: r_script,
            order: r_order,
            dotgit: r_dotgit,
            ..
        } = rhs;
        let ghost m = files::files_map(lfiles);
        proof {
            lemma_listing(rfiles);
        }
        let ghost rlist = map_listing(files::files_map(rfiles));
        let merged = files::union_files(lfiles, rfiles);
        proof {
            let done = files::files_map(merged);
            let chosen = union_map(a.files, b.files);
            assert(files::files_united(m, rlist, done));
            assert(files::files_united(a.files, map_listing(b.files), chosen));
            files::law_normal_form_unique(files::placed_all(m, rlist), done, chosen);
        }
        let mut script = script;
        script.add_assign(r_script);
        let mut names = source_names;
        let ghost old_names = names;
        names.extend(r_names);
        proof {
            lemma_union_texts(script@.lua_start, a.script.lua_start, b.script.lua_start);
            lemma_union_texts(script@.lua_after, a.script.lua_after, b.script.lua_after);
            lemma_union_texts(script@.lua_before, a.script.lua_before, b.script.lua_before);
            assert forall|k: Seq<char>| #[trigger]
                names.members().contains(k) <==> a.source_names.contains(k)
                    || b.source_names.contains(k) by {
                assert(names.has(k) <==> old_names.has(k) || r_names.has(k));
            }
            lemma_union_texts(names.members(), a.source_names, b.source_names);
        }
        let sum = LoadedPlugin {
            source_names: names,
            lazy_type,
            files: merged,
            script,
            order: if order <= r_order {
                order
            } else {
                r_order
            },
            merge_enabled,
            is_lazy_registration,
            dotgit: dotgit || r_dotgit,
        };
        assert(sum@ == combined(a, b));
        sum
    }

    /// Splits off the documentation into a package of its own.
    pub fn split_doc(self) -> (parts: (LoadedPlugin, Option<LoadedPlugin>))
        requires
            self.wf(),
        ensures
            parts.0.wf(),
            parts.0@ == (Plugin { files: without_doc(self@.files), ..self@ }),
            match parts.1 {
                Some(doc) => {
                    &&& doc.wf()
                    &&& doc@ == doc_plugin(only_doc(self@.files))
                    &&& exists|p: Seq<Part>| #[trigger] self@.files.contains_key(p) && in_doc(p)
                },
                None => forall|p: Seq<Part>| #[trigger]
                    self@.files.contains_key(p) ==> !in_doc(p),
            },
    {
        let ghost given = self.files;
        let ghost m = self@.files;
        let LoadedPlugin {
            source_names,
            lazy_type,
            files: all,
            script,
            order,
            merge_enabled,
            is_lazy_registration,
            dotgit,
        } = self;
        let prefix = Path::empty().child("doc");
        assert(prefix@ =~= seq![Part::Normal("doc"@)]);
        let ghost raw = all.entries@;
        let mut rest: SortedMap<Path, FileItem> = SortedMap::new();
        let mut doc: SortedMap<Path, FileItem> = SortedMap::new();
        let entries = all.entries;
        proof {
            order::lemma_fields(given);
        }
        for pair in it: entries
            invariant
                it.seq() == raw,
                raw == given.entries@,
                files::files_wf(given),
                m == files::files_map(given),
                given.keys() == raw.map_values(|e: (Path, FileItem)| e.0.model()),
                given.values() == raw.map_values(|e: (Path, FileItem)| e.1),
                prefix@ == seq![Part::Normal("doc"@)],
                files::files_wf(rest),
                files::files_wf(doc),
                forall|p: Seq<Part>| #[trigger]
                    rest.has(p) <==> !in_doc(p) && exists|k: int|
                        0 <= k < it.index() && (#[trigger] given.keys()[k]) == p,
                forall|p: Seq<Part>| #[trigger]
                    doc.has(p) <==> in_doc(p) && exists|k: int|
                        0 <= k < it.index() && (#[trigger] given.keys()[k]) == p,
                forall|p: Seq<Part>| #[trigger] rest.has(p) ==> rest.at(p)@ == m[p],
                forall|p: Seq<Part>| #[trigger]
                    doc.has(p) ==> doc.at(p)@ == (Item {
                        source: m[p].source,
                        identity: m[p].identity,
                        merge_type: MergeType::Overwrite,
                    }),
        {
            let ghost n = it.index() as int;
            let (p, item) = pair;
            let ghost key = p@;
            let ghost rest0 = rest;
            let ghost doc0 = doc;
            proof {
                given.lemma_at(n);
                assert(raw[n] == pair);
                assert(given.keys()[n] == key);
                order::lemma_ascending_distinct::<Path>(given.keys());
            }
            if p.starts_with(&prefix) && !p.same(&prefix) {
                assert(in_doc(key));
                let moved = FileItem {
                    source: item.source,
                    identity: item.identity,
                    merge_type: MergeType::Overwrite,
                };
                doc.insert(p, moved);
                proof {
                    assert forall|q: Seq<Part>| #[trigger] doc.has(q) implies doc.at(q).wf() by {
                        if q != key {
                            assert(doc0.has(q));
                        }
                    }
                    assert forall|q: Seq<Part>| #[trigger]
                        doc.has(q) <==> in_doc(q) && exists|k: int|
                            0 <= k < n + 1 && (#[trigger] given.keys()[k]) == q by {
                        assert(doc0.has(q) <==> in_doc(q) && exists|k: int|
                            0 <= k < n && (#[trigger] given.keys()[k]) == q);
                        if q == key {
                            assert(given.keys()[n] == q);
                        }
                    }
                    assert forall|q: Seq<Part>| #[trigger]
                        rest.has(q) <==> !in_doc(q) && exists|k: int|
                            0 <= k < n + 1 && (#[trigger] given.keys()[k]) == q by {
                        assert(rest0.has(q) <==> !in_doc(q) && exists|k: int|
                            0 <= k < n && (#[trigger] given.keys()[k]) == q);
                    }
                    assert forall|q: Seq<Part>| #[trigger] doc.has(q) implies doc.at(q)@ == (Item {
                        source: m[q].source,
                        identity: m[q].identity,
                        merge_type: MergeType::Overwrite,
                    }) by {
                        if q != key {
                            assert(doc0.has(q));
                        }
                    }
                }
            } else {
                assert(!in_doc(key));
                rest.insert(p, item);
                proof {
                    assert forall|q: Seq<Part>| #[trigger] rest.has(q) implies rest.at(q).wf() by {
                        if q != key {
                            assert(rest0.has(q));
                        }
                    }
                    assert forall|q: Seq<Part>| #[trigger]
                        rest.has(q) <==> !in_doc(q) && exists|k: int|
                            0 <= k < n + 1 && (#[trigger] given.keys()[k]) == q by {
                        assert(rest0.has(q) <==> !in_doc(q) && exists|k: int|
                            0 <= k < n && (#[trigger] given.keys()[k]) == q);
                        if q == key {
                            assert(given.keys()[n] == q);
                        }
                    }
                    assert forall|q: Seq<Part>| #[trigger]
                        doc.has(q) <==> in_doc(q) && exists|k: int|
                            0 <= k < n + 1 && (#[trigger] given.keys()[k]) == q by {
                        assert(doc0.has(q) <==> in_doc(q) && exists|k: int|
                            0 <= k < n && (#[trigger] given.keys()[k]) == q);
                    }
                    assert forall|q: Seq<Part>| #[trigger] rest.has(q) implies rest.at(q)@ == m[q] by {
                        if q != key {
                            assert(rest0.has(q));
                        }
                    }
                }
            }
        }
        proof {
            assert forall|p: Seq<Part>| #[trigger] m.contains_key(p) <==> exists|k: int|
                0 <= k < raw.len() && (#[trigger] given.keys()[k]) == p by {
                if m.contains_key(p) {
                    let k = given.keys().index_of(p);
                    assert(given.keys()[k] == p);
                }
                if exists|k: int| 0 <= k < raw.len() && (#[trigger] given.keys()[k]) == p {
                    let k = choose|k: int| 0 <= k < raw.len() && (#[trigger] given.keys()[k]) == p;
                    given.lemma_at(k);
                }
            }
            assert(files::files_map(rest) =~= without_doc(m));
            assert(files::files_map(doc) =~= only_doc(m));
        }
        let rest = LoadedPlugin {
            source_names,
            lazy_type,
            files: rest,
            script,
            order,
            merge_enabled,
            is_lazy_registration,
            dotgit,
        };
        if doc.is_empty() {
            proof {
                assert forall|p: Seq<Part>| #[trigger] m.contains_key(p) implies !in_doc(p) by {
                    if in_doc(p) {
                        assert(only_doc(m).contains_key(p));
                        assert(doc.has(p));
                    }
                }
            }
            return (rest, None);
        }
        proof {
            let p = doc.keys()[0];
            assert(doc.keys().contains(p));
            assert(doc.has(p));
            assert(only_doc(m).contains_key(p));
            assert(m.contains_key(p) && in_doc(p));
        }
        let mut names: SortedSet<String> = SortedSet::new();
        names.insert(DOC_PLUGIN_NAME.to_owned());
        proof {
            let wanted = seq![DOC_PLUGIN_NAME@];
            assert forall|k: Seq<char>| #[trigger] names.members().contains(k) <==> wanted.contains(k) by {
                assert(names.has(k) <==> k == DOC_PLUGIN_NAME@);
                assert(wanted[0] == DOC_PLUGIN_NAME@);
            }
            order::lemma_ascending_unique::<String>(names.members(), wanted);
        }
        let doc = LoadedPlugin {
            source_names: names,
            lazy_type: LazyType::Start,
            files: doc,
            script: SetupScript::default(),
            order: usize::MAX,
            merge_enabled: true,
            is_lazy_registration: true,
            dotgit: false,
        };
        proof {
            assert(doc.script@.lua_start =~= Seq::<Seq<char>>::empty());
            assert(doc.script@.lua_after =~= Seq::<Seq<char>>::empty());
            assert(doc.script@.lua_before =~= Seq::<Seq<char>>::empty());
        }
        (rest, Some(doc))
    }
}

} // verus!
