//! What is published, and what of earlier generations is kept.

use crate::generation;
use crate::generation::{Generation, Observed};
use crate::order;
use crate::order::SortedSet;
use crate::pack_plan::Package;
use crate::path;
use crate::text;
use vstd::prelude::*;

verus! {

/// The text is 32 hexadecimal digits.
pub open spec fn names_generation(name: Seq<char>) -> bool {
    name.len() == 32 && forall|i: int|
        0 <= i < name.len() ==> {
            let c = #[trigger] name[i];
            ('0' <= c && c <= '9') || ('a' <= c && c <= 'f') || ('A' <= c && c <= 'F')
        }
}

proof fn lemma_name(name: Seq<char>)
    ensures
        generation::is_generation_name(name) <==> names_generation(name),
{
    if generation::is_generation_name(name) {
        assert forall|i: int| 0 <= i < name.len() implies {
            let c = #[trigger] name[i];
            ('0' <= c && c <= '9') || ('a' <= c && c <= 'f') || ('A' <= c && c <= 'F')
        } by {
            assert(generation::hex_digit(name[i]));
        }
    }
}

/// `i` comes before `j` in the list, by where the two names stand.
pub open spec fn stands_before(list: Seq<Seq<char>>, a: Seq<char>, b: Seq<char>) -> bool {
    exists|i: int, j: int| 0 <= i < j < list.len() && #[trigger] list[i] == a && #[trigger] list[j] == b
}

proof fn lemma_others(list: Seq<Seq<char>>, current: Seq<char>)
    requires
        list.no_duplicates(),
    ensures
        ({
            let rest = list.filter(generation::other_than(current));
            &&& forall|x: Seq<char>| #[trigger] rest.contains(x) <==> list.contains(x) && x != current
            &&& forall|i: int, j: int|
                0 <= i < j < rest.len() ==> stands_before(list, #[trigger] rest[i], #[trigger] rest[j])
        }),
    decreases list.len(),
{
    reveal(Seq::filter);
    let pick = generation::other_than(current);
    let rest = list.filter(pick);
    if list.len() > 0 {
        let front = list.drop_last();
        let last = list.last();
        let few = front.filter(pick);
        lemma_others(front, current);
        assert(list =~= front.push(last));
        assert forall|x: Seq<char>| #[trigger] rest.contains(x) <==> list.contains(x) && x != current by {
            order::lemma_contains_push(front, last, x);
            order::lemma_contains_push(few, last, x);
            assert(few.contains(x) <==> front.contains(x) && x != current);
        }
        assert forall|i: int, j: int| 0 <= i < j < rest.len() implies stands_before(
            list,
            #[trigger] rest[i],
            #[trigger] rest[j],
        ) by {
            if j < few.len() {
                assert(stands_before(front, few[i], few[j]));
                let (a, b) = choose|a: int, b: int|
                    0 <= a < b < front.len() && #[trigger] front[a] == few[i] && #[trigger] front[b]
                        == few[j];
                assert(list[a] == rest[i] && list[b] == rest[j]);
            } else {
                assert(few.contains(few[i]));
                let a = front.index_of(few[i]);
                assert(list[a] == rest[i]);
                assert(list[list.len() - 1] == rest[j]);
            }
        }
    }
}

/// Publishing keeps three generations at most: the published one first, then the latest others in
/// the order they had.  What is not kept is older than what is, and is dropped only for want of
/// room.
pub proof fn law_latest_are_kept(list: Seq<Seq<char>>, current: Seq<char>, name: Seq<char>)
    requires
        list.no_duplicates(),
    ensures
        ({
            let kept = generation::registered(list, current);
            &&& kept.len() <= 3
            &&& kept.len() > 0 && kept[0] == current
            &&& forall|i: int, j: int|
                1 <= i < j < kept.len() ==> stands_before(list, #[trigger] kept[i], #[trigger] kept[j])
            &&& list.contains(name) && !kept.contains(name) ==> kept.len() == 3 && forall|i: int|
                1 <= i < kept.len() ==> stands_before(list, #[trigger] kept[i], name)
        }),
{
    let rest = list.filter(generation::other_than(current));
    let all = seq![current] + rest;
    let kept = generation::registered(list, current);
    lemma_others(list, current);
    assert forall|i: int, j: int| 1 <= i < j < kept.len() implies stands_before(
        list,
        #[trigger] kept[i],
        #[trigger] kept[j],
    ) by {
        assert(kept[i] == rest[i - 1] && kept[j] == rest[j - 1]);
    }
    if list.contains(name) && !kept.contains(name) {
        assert(kept.contains(kept[0]));
        assert(name != current);
        assert(rest.contains(name));
        let k = rest.index_of(name);
        assert(all[k + 1] == name);
        assert(k + 1 >= kept.len()) by {
            if k + 1 < kept.len() {
                assert(kept[k + 1] == name);
            }
        }
        assert forall|i: int| 1 <= i < kept.len() implies stands_before(
            list,
            #[trigger] kept[i],
            name,
        ) by {
            assert(kept[i] == rest[i - 1]);
            assert(stands_before(list, rest[i - 1], rest[k]));
        }
    }
}

/// The next generation to look at is the first from here on that is not the published one and has
/// the name of a generation; what is passed over is neither.
pub proof fn law_next_to_look_at(registry: Seq<Seq<char>>, current: Seq<char>, from: int)
    requires
        0 <= from <= registry.len(),
    ensures
        ({
            let at = generation::next_eligible(registry, current, from);
            &&& from <= at <= registry.len()
            &&& at < registry.len() ==> registry[at] != current && names_generation(registry[at])
            &&& forall|i: int|
                from <= i < at ==> #[trigger] registry[i] == current || !names_generation(registry[i])
        }),
    decreases registry.len() - from,
{
    if from < registry.len() {
        lemma_name(registry[from]);
        law_next_to_look_at(registry, current, from + 1);
    }
}

/// A generation with generated packages is in use exactly if its packages are there, its loader is,
/// `init.lua` is a link, and what was recorded is a manifest of the present version with these
/// packages and, where a plan is known, with this plan under its identity.
pub proof fn law_in_use(
    observed: Observed,
    control_ids: Seq<Seq<char>>,
    entries: Seq<Seq<char>>,
    init: Seq<u8>,
    desired: Option<Generation>,
)
    requires
        control_ids.len() > 0,
    ensures
        generation::is_current(observed, control_ids, entries, init, desired) <==> {
            &&& observed.packages_present
            &&& observed.init_is_link == Some(true)
            &&& observed.loader matches Some(data) && data@ == init
            &&& observed.manifest is Some
            &&& observed.manifest->0.version == 2
            &&& text::strings(observed.manifest->0.entries@) == entries
            &&& desired is Some ==> observed.manifest->0.plan is Some && observed.manifest->0.plan->0@
                == desired->0 && observed.manifest->0.generation_id@ == generation::generation_id(
                desired->0,
            )
        },
{
}

/// Without generated packages all that is needed besides the packages is `init.lua` itself, as a
/// file with the content.
pub proof fn law_in_use_without_controls(
    observed: Observed,
    entries: Seq<Seq<char>>,
    init: Seq<u8>,
    desired: Option<Generation>,
)
    ensures
        generation::is_current(observed, Seq::empty(), entries, init, desired) <==> {
            &&& observed.packages_present
            &&& observed.init matches Some(data) && data@ == init
            &&& observed.init_is_link == Some(false)
        },
{
}

/// The generated packages are exactly the packages that are registrations.
pub proof fn law_controls(files: Seq<(Seq<char>, Package)>, id: Seq<char>)
    ensures
        generation::controls(files).contains(id) <==> exists|i: int|
            0 <= i < files.len() && (#[trigger] files[i]).0 == id && files[i].1.is_lazy_registration,
    decreases files.len(),
{
    if files.len() > 0 {
        let front = files.drop_last();
        let last = files.last();
        law_controls(front, id);
        order::lemma_contains_push(generation::controls(front), last.0, id);
        assert(files[files.len() - 1] == last);
        if exists|i: int|
            0 <= i < front.len() && (#[trigger] front[i]).0 == id && front[i].1.is_lazy_registration {
            let i = choose|i: int|
                0 <= i < front.len() && (#[trigger] front[i]).0 == id
                    && front[i].1.is_lazy_registration;
            assert(files[i] == front[i]);
        }
        if exists|i: int|
            0 <= i < files.len() && (#[trigger] files[i]).0 == id && files[i].1.is_lazy_registration {
            let i = choose|i: int|
                0 <= i < files.len() && (#[trigger] files[i]).0 == id
                    && files[i].1.is_lazy_registration;
            if i < front.len() {
                assert(front[i] == files[i]);
            }
        }
    }
}

/// Every package has a place of its own below `opt/`, and nothing else has.
pub proof fn law_places(files: Seq<(Seq<char>, Package)>, i: int)
    requires
        0 <= i < files.len(),
    ensures
        generation::places(files).len() == files.len(),
        generation::places(files)[i] == "opt/"@ + files[i].0,
{
}

/// A generation is published under the identity of its plan if that is known, else under its first
/// generated package, and only without one under the identity of what was published.
pub proof fn law_publication(
    desired: Option<Generation>,
    control_ids: Seq<Seq<char>>,
    published: Seq<char>,
)
    ensures
        desired is Some ==> generation::publication(desired, control_ids, published)
            == generation::generation_id(desired->0),
        desired is None && control_ids.len() > 0 ==> generation::publication(
            desired,
            control_ids,
            published,
        ) == control_ids[0],
        desired is None && control_ids.len() == 0 ==> generation::publication(
            desired,
            control_ids,
            published,
        ) == published,
{
}

/// The loader names every generated package, quoted, and in their order: the text up to one is the
/// text up to the one before and more.
pub proof fn law_loader_names_packages(ids: Seq<Seq<char>>, i: int)
    requires
        0 <= i < ids.len(),
    ensures
        exists|head: Seq<char>, tail: Seq<char>|
            generation::init_text(ids) == #[trigger] (head + ("\""@ + ids[i] + "\","@) + tail),
{
    let body = generation::quoted_ids(ids);
    let before = generation::quoted_ids(ids.take(i));
    let piece = "\""@ + ids[i] + "\","@;
    let rest = lemma_quoted(ids, i);
    let head = generation::INIT_HEAD@ + generation::INIT_REQUESTED@ + before;
    let tail = rest + generation::INIT_TAIL@;
    assert(generation::init_text(ids) =~= head + piece + tail);
}

proof fn lemma_quoted(ids: Seq<Seq<char>>, i: int) -> (rest: Seq<char>)
    requires
        0 <= i < ids.len(),
    ensures
        generation::quoted_ids(ids) == generation::quoted_ids(ids.take(i)) + ("\""@ + ids[i]
            + "\","@) + rest,
    decreases ids.len(),
{
    let front = ids.drop_last();
    if i == front.len() {
        assert(ids.take(i) =~= front);
        let rest = Seq::<char>::empty();
        assert(generation::quoted_ids(ids) =~= generation::quoted_ids(ids.take(i)) + ("\""@ + ids[i]
            + "\","@) + rest);
        rest
    } else {
        let more = lemma_quoted(front, i);
        assert(front.take(i) =~= ids.take(i));
        let rest = more + ("\""@ + ids.last() + "\","@);
        assert(generation::quoted_ids(ids) =~= generation::quoted_ids(ids.take(i)) + ("\""@ + ids[i]
            + "\","@) + rest);
        rest
    }
}

/// A package is reachable from everything that is kept at or below its place, and from nothing
/// that merely begins with the same characters.
pub proof fn law_reachable(entries: SortedSet<String>, root: Seq<char>, name: Seq<char>)
    ensures
        entries.has(root + "/"@ + name) ==> generation::is_reachable(entries, root, name),
        forall|below: Seq<char>| #[trigger]
            entries.has(root + "/"@ + name + "/"@ + below) ==> generation::is_reachable(
                entries,
                root,
                name,
            ),
        generation::is_reachable(entries, root, name) ==> entries.has(root + "/"@ + name) || exists|
            below: Seq<char>,
        | #[trigger] entries.has(root + "/"@ + name + "/"@ + below),
{
    let own = root + "/"@ + name;
    let dir = own + "/"@;
    assert forall|below: Seq<char>| #[trigger]
        entries.has(root + "/"@ + name + "/"@ + below) implies generation::is_reachable(
        entries,
        root,
        name,
    ) by {
        let k = dir + below;
        assert(dir =~= k.subrange(0, dir.len() as int));
        assert(entries.has(k));
    }
    if generation::is_reachable(entries, root, name) {
        let k = choose|k: Seq<char>| #[trigger]
            entries.has(k) && (k == own || dir.is_prefix_of(k));
        if k != own {
            let below = k.skip(dir.len() as int);
            assert(k =~= dir + below);
            assert(entries.has(root + "/"@ + name + "/"@ + below));
        }
    }
}

proof fn lemma_last_dot(name: Seq<char>)
    ensures
        -1 <= path::last_dot(name) < name.len(),
        path::last_dot(name) >= 0 ==> name[path::last_dot(name)] == '.',
        forall|i: int| path::last_dot(name) < i < name.len() ==> #[trigger] name[i] != '.',
    decreases name.len(),
{
    if name.len() > 0 && name.last() != '.' {
        let front = name.drop_last();
        lemma_last_dot(front);
        assert forall|i: int| path::last_dot(name) < i < name.len() implies #[trigger] name[i] != '.' by {
            if i < front.len() {
                assert(front[i] == name[i]);
            }
        }
    }
}

/// A file belongs to a generation exactly if it is named by it and the extension: nothing before
/// the dot is no name, and what is behind the last dot is the extension.
pub proof fn law_generation_of_file(file: Seq<char>, ext: Seq<char>, name: Seq<char>)
    requires
        !ext.contains('.'),
        name.len() > 0,
    ensures
        generation::generation_of(file, ext) == Some(name) <==> file == name + "."@ + ext,
{
    reveal_strlit(".");
    lemma_last_dot(file);
    let dot = path::last_dot(file);
    if generation::generation_of(file, ext) == Some(name) {
        assert(file =~= name + "."@ + ext);
    }
    if file == name + "."@ + ext {
        let k = name.len() as int;
        assert(file[k] == '.');
        assert forall|i: int| k < i < file.len() implies file[i] != '.' by {
            assert(file[i] == ext[i - k - 1]);
            assert(ext.contains(ext[i - k - 1]));
        }
        assert(dot == k);
        assert(file.take(k) =~= name);
        assert(file.skip(k + 1) =~= ext);
    }
}

/// The generations of the files are exactly those that one of them is a manifest of.
pub proof fn law_manifests(files: Seq<Seq<char>>, name: Seq<char>)
    requires
        name.len() > 0,
    ensures
        generation::manifests_of(files).contains(name) <==> files.contains(name + ".json"@),
    decreases files.len(),
{
    reveal_strlit("json");
    reveal_strlit(".json");
    reveal_strlit(".");
    if files.len() > 0 {
        let front = files.drop_last();
        let last = files.last();
        law_manifests(front, name);
        law_generation_of_file(last, "json"@, name);
        assert("."@ + "json"@ =~= ".json"@);
        assert(name + "."@ + "json"@ =~= name + ".json"@);
        assert(files =~= front.push(last));
        order::lemma_contains_push(front, last, name + ".json"@);
        match generation::generation_of(last, "json"@) {
            Some(found) => {
                order::lemma_contains_push(generation::manifests_of(front), found, name);
            },
            None => {},
        }
    }
}

/// A package is kept exactly if its own place is: not for what is below it, nor for a place that
/// begins alike.
pub proof fn law_kept_place(entries: SortedSet<String>, root: Seq<char>, name: Seq<char>)
    ensures
        generation::is_kept_place(entries, root, name) ==> entries.has(root + "/"@ + name)
            && generation::is_reachable(entries, root, name),
        !generation::is_kept_place(entries, root, name) ==> !entries.has(root + "/"@ + name),
{
    law_reachable(entries, root, name);
}

} // verus!
