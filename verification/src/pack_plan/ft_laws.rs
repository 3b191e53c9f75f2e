//! The index of file type plugins tells what a look at the installed packages would.

use crate::files::Source;
use crate::lazy_registration;
use crate::order;
use crate::pack_plan::ft_index;
use crate::pack_plan::ft_names;
use crate::path;
use crate::path::{Part, Path};
use crate::text;
use vstd::prelude::*;

verus! {

/// No name on the way holds a slash.
pub open spec fn has_no_slash(p: Seq<Part>) -> bool {
    forall|i: int| 0 <= i < p.len() && (#[trigger] p[i]) is Normal ==> !p[i]->Normal_0.contains('/')
}

/// The text names the script of exactly a file type.
pub open spec fn is_exact(name: Seq<char>, ft: Seq<char>) -> bool {
    name == ft + ".vim"@ || name == ft + ".lua"@
}

/// `names` are the names of the file type plugins that a package has directly in its directory of
/// file type plugins, and those of exactly the file type wherever below it they are, each once.
pub open spec fn are_found(
    names: Seq<Seq<char>>,
    entries: Seq<(Seq<Part>, Source)>,
    ft: Seq<char>,
) -> bool {
    names.no_duplicates() && forall|n: Seq<char>| #[trigger]
        names.contains(n) <==> ft_index::has_ftplugin(
            entries,
            ft_index::ftplugin_dir().push(Part::Normal(n)),
        ) || (is_exact(n, ft) && ft_index::has_ftplugin(
            entries,
            ft_index::ftplugin_dir() + path::parse_text(n),
        ))
}

/// `names` are the names of the file type plugins that a package has directly in a directory,
/// each once.
pub open spec fn are_names_in(
    names: Seq<Seq<char>>,
    entries: Seq<(Seq<Part>, Source)>,
    dir: Seq<Part>,
) -> bool {
    names.no_duplicates() && forall|n: Seq<char>| #[trigger]
        names.contains(n) <==> ft_index::has_ftplugin(entries, dir.push(Part::Normal(n)))
}

/// Where the script of exactly a file type is, and how it is written.
proof fn lemma_exact(id: Seq<char>, ft: Seq<char>, ext: Seq<char>, ending: Seq<char>)
    requires
        ft_names::is_plain_path(ft),
        ext == "vim"@ && ending == ".vim"@ || ext == "lua"@ && ending == ".lua"@,
    ensures
        ft_index::exact_path(ft, ext) == ft_index::ftplugin_dir() + path::parse_text(ft + ending),
        ft_index::installed_text(id, ft_index::exact_path(ft, ext)) == ft_index::scanned_text(
            id,
            Seq::<char>::empty() + (ft + ending),
        ),
        !ft.contains('/') ==> ft_index::exact_path(ft, ext) == ft_index::ftplugin_dir().push(
            Part::Normal(ft + ending),
        ),
        ft.contains('/') ==> (ft + ending).contains('/'),
{
    reveal_strlit(".");
    reveal_strlit("vim");
    reveal_strlit("lua");
    reveal_strlit(".vim");
    reveal_strlit(".lua");
    reveal_strlit("/");
    reveal_strlit("ftplugin");
    reveal_strlit("/ftplugin/");
    let name = ft + ending;
    assert(ft + "."@ + ext =~= name);
    ft_names::lemma_exact_plain(ft, ending);
    ft_names::lemma_plain_path(name);
    ft_names::lemma_below_text(name);
    assert(Seq::<char>::empty() + name =~= name);
    assert("/"@ + "ftplugin"@ + "/"@ =~= "/ftplugin/"@);
    assert("opt/"@ + id + "/"@ + ("ftplugin"@ + "/"@ + name) =~= "opt/"@ + id + ("/"@
        + "ftplugin"@ + "/"@) + name);
    if !ft.contains('/') {
        assert(!name.contains('/')) by {
            if name.contains('/') {
                let k = choose|k: int| 0 <= k < name.len() && name[k] == '/';
                if k < ft.len() {
                    assert(ft.contains(ft[k]));
                }
            }
        }
        ft_names::lemma_one_name(name);
        assert(ft_index::ftplugin_dir() + seq![Part::Normal(name)]
            =~= ft_index::ftplugin_dir().push(Part::Normal(name)));
    }
}

proof fn lemma_filter_ascending(list: Seq<Seq<Part>>, pass: spec_fn(Seq<Part>) -> bool)
    requires
        order::ascending::<Path>(list),
    ensures
        order::ascending::<Path>(list.filter(pass)),
        forall|p: Seq<Part>| #[trigger]
            list.filter(pass).contains(p) <==> list.contains(p) && pass(p),
    decreases list.len(),
{
    reveal(Seq::filter);
    let all = list.filter(pass);
    if list.len() > 0 {
        let front = list.drop_last();
        let last = list.last();
        let before = front.filter(pass);
        assert forall|i: int, j: int| 0 <= i < j < front.len() implies <Path as order::Key>::before(
            #[trigger] front[i],
            #[trigger] front[j],
        ) by {
            assert(<Path as order::Key>::before(list[i], list[j]));
        }
        lemma_filter_ascending(front, pass);
        assert(list =~= front.push(last));
        assert forall|p: Seq<Part>| #[trigger] all.contains(p) <==> list.contains(p) && pass(p) by {
            order::lemma_contains_push(front, last, p);
            order::lemma_contains_push(before, last, p);
            assert(before.contains(p) <==> front.contains(p) && pass(p));
        }
        assert forall|i: int, j: int| 0 <= i < j < all.len() implies <Path as order::Key>::before(
            #[trigger] all[i],
            #[trigger] all[j],
        ) by {
            if j < before.len() {
                assert(<Path as order::Key>::before(before[i], before[j]));
            } else {
                assert(before.contains(before[i]));
                let k = choose|k: int| 0 <= k < front.len() && front[k] == before[i];
                assert(<Path as order::Key>::before(list[k], list[list.len() - 1]));
            }
        }
    } else {
        assert forall|p: Seq<Part>| !list.contains(p) by {}
    }
}

proof fn lemma_filter_distinct(names: Seq<Seq<char>>, pass: spec_fn(Seq<char>) -> bool)
    requires
        names.no_duplicates(),
    ensures
        names.filter(pass).no_duplicates(),
        forall|n: Seq<char>| #[trigger]
            names.filter(pass).contains(n) <==> names.contains(n) && pass(n),
    decreases names.len(),
{
    reveal(Seq::filter);
    if names.len() > 0 {
        let front = names.drop_last();
        let last = names.last();
        let before = front.filter(pass);
        let all = names.filter(pass);
        lemma_filter_distinct(front, pass);
        assert(names =~= front.push(last));
        assert forall|n: Seq<char>| #[trigger] all.contains(n) <==> names.contains(n) && pass(n) by {
            order::lemma_contains_push(front, last, n);
            order::lemma_contains_push(before, last, n);
            assert(before.contains(n) <==> front.contains(n) && pass(n));
        }
        assert(!front.contains(last)) by {
            if front.contains(last) {
                let k = choose|k: int| 0 <= k < front.len() && front[k] == last;
                assert(names[k] == names[names.len() - 1]);
            }
        }
        if pass(last) {
            assert forall|i: int, j: int| 0 <= i < j < all.len() implies all[i] != all[j] by {
                if j == before.len() {
                    assert(before.contains(before[i]));
                }
            }
        }
    } else {
        assert forall|n: Seq<char>| !names.contains(n) by {}
    }
}

/// What is picked from names without repetitions ascends.
proof fn lemma_picked(
    list: Seq<Seq<char>>,
    names: Seq<Seq<char>>,
    pass: spec_fn(Seq<char>) -> bool,
)
    requires
        ft_index::picked(list, names, pass),
        names.no_duplicates(),
    ensures
        order::ascending::<String>(list),
        forall|n: Seq<char>| #[trigger] list.contains(n) <==> names.contains(n) && pass(n),
{
    let keys = names.filter(pass);
    lemma_filter_distinct(names, pass);
    keys.lemma_multiset_has_no_duplicates();
    list.lemma_multiset_has_no_duplicates_conv();
    order::lemma_key_order::<String>();
    assert forall|i: int, j: int| 0 <= i < j < list.len() implies <String as order::Key>::before(
        #[trigger] list[i],
        #[trigger] list[j],
    ) by {
        assert(list[i] != list[j]);
        assert(!<String as order::Key>::before(list[j], list[i]));
        assert(list[i] == list[j] || <String as order::Key>::before(list[i], list[j])
            || <String as order::Key>::before(list[j], list[i]));
    }
    assert forall|n: Seq<char>| #[trigger] list.contains(n) <==> names.contains(n) && pass(n) by {
        vstd::seq_lib::to_multiset_contains(list, n);
        vstd::seq_lib::to_multiset_contains(keys, n);
        assert(keys.contains(n) <==> names.contains(n) && pass(n));
    }
}

/// The paths of names in a directory.
pub open spec fn paths_in(dir: Seq<Part>, names: Seq<Seq<char>>) -> Seq<Seq<Part>> {
    names.map_values(|n: Seq<char>| dir.push(Part::Normal(n)))
}

/// Paths in one directory are in the order of their names.
proof fn lemma_names_order(dir: Seq<Part>, a: Seq<char>, b: Seq<char>)
    requires
        order::text_before(a, b),
    ensures
        path::path_before(dir.push(Part::Normal(a)), dir.push(Part::Normal(b))),
{
    let lt = path::part_before();
    let p = dir.push(Part::Normal(a));
    let q = dir.push(Part::Normal(b));
    let n = dir.len() as int;
    let x = p.skip(n);
    let y = q.skip(n);
    assert(x[0] == Part::Normal(a));
    assert(y[0] == Part::Normal(b));
    assert(lt(x[0], y[0]));
    assert(order::lex_before(x, y, lt));
    path::lemma_part_before();
    assert forall|i: int| 0 <= i < n implies #[trigger] p[i] == q[i] by {}
    order::lemma_lex_skip(p, q, n, lt);
}

/// Exactly the paths of names in the directory that pass are among those that are looked for.
#[verifier::opaque]
spec fn looks_for(
    among: spec_fn(Seq<Part>) -> bool,
    dir: Seq<Part>,
    pass: spec_fn(Seq<char>) -> bool,
) -> bool {
    &&& forall|p: Seq<Part>| #[trigger] among(p) ==> in_dir(p, dir) && pass(p.last()->Normal_0)
    &&& forall|n: Seq<char>| #[trigger] pass(n) ==> among(dir.push(Part::Normal(n)))
}

/// The path is that of a name directly in the directory.
spec fn in_dir(p: Seq<Part>, dir: Seq<Part>) -> bool {
    p.len() > 0 && p.last() is Normal && p == dir.push(p.last())
}

/// `names` are those of the listed paths directly in the directory.
#[verifier::opaque]
spec fn are_listed(names: Seq<Seq<char>>, list: Seq<Seq<Part>>, dir: Seq<Part>) -> bool {
    forall|n: Seq<char>| #[trigger]
        names.contains(n) <==> list.contains(dir.push(Part::Normal(n)))
}

/// A path is found exactly if its name is.
proof fn lemma_found(
    list: Seq<Seq<Part>>,
    among: spec_fn(Seq<Part>) -> bool,
    dir: Seq<Part>,
    names: Seq<Seq<char>>,
    pass: spec_fn(Seq<char>) -> bool,
    p: Seq<Part>,
)
    requires
        are_listed(names, list, dir),
        looks_for(among, dir, pass),
    ensures
        list.contains(p) && among(p) <==> in_dir(p, dir) && names.contains(p.last()->Normal_0)
            && pass(p.last()->Normal_0),
{
    reveal(looks_for);
    reveal(are_listed);
    let n = p.last()->Normal_0;
    if in_dir(p, dir) {
        assert(p.last() == Part::Normal(n));
        assert(names.contains(n) <==> list.contains(dir.push(Part::Normal(n))));
        if pass(n) {
            assert(among(dir.push(Part::Normal(n))));
        }
    }
}

proof fn lemma_paths_ascend(dir: Seq<Part>, sorted: Seq<Seq<char>>)
    requires
        order::ascending::<String>(sorted),
    ensures
        order::ascending::<Path>(paths_in(dir, sorted)),
{
    let paths = paths_in(dir, sorted);
    assert forall|i: int, j: int| 0 <= i < j < paths.len() implies <Path as order::Key>::before(
        #[trigger] paths[i],
        #[trigger] paths[j],
    ) by {
        assert(<String as order::Key>::before(sorted[i], sorted[j]));
        lemma_names_order(dir, sorted[i], sorted[j]);
    }
}

proof fn lemma_in_paths(dir: Seq<Part>, sorted: Seq<Seq<char>>, p: Seq<Part>)
    ensures
        paths_in(dir, sorted).contains(p) <==> in_dir(p, dir) && sorted.contains(
            p.last()->Normal_0,
        ),
{
    let paths = paths_in(dir, sorted);
    if paths.contains(p) {
        let k = choose|k: int| 0 <= k < paths.len() && paths[k] == p;
        assert(p == dir.push(Part::Normal(sorted[k])));
        assert(p.last() == Part::Normal(sorted[k]));
    }
    if in_dir(p, dir) && sorted.contains(p.last()->Normal_0) {
        let k = choose|k: int| 0 <= k < sorted.len() && sorted[k] == p.last()->Normal_0;
        assert(paths[k] == p);
    }
}

/// The plugins directly in a directory whose names pass, in path order, are those names in text
/// order.
proof fn lemma_dir_names(
    list: Seq<Seq<Part>>,
    among: spec_fn(Seq<Part>) -> bool,
    dir: Seq<Part>,
    sorted: Seq<Seq<char>>,
    names: Seq<Seq<char>>,
    pass: spec_fn(Seq<char>) -> bool,
)
    requires
        order::ascending::<Path>(list),
        names.no_duplicates(),
        are_listed(names, list, dir),
        looks_for(among, dir, pass),
        ft_index::picked(sorted, names, pass),
    ensures
        list.filter(among) == paths_in(dir, sorted),
{
    let found = list.filter(among);
    let paths = paths_in(dir, sorted);
    lemma_filter_ascending(list, among);
    lemma_picked(sorted, names, pass);
    lemma_paths_ascend(dir, sorted);
    assert forall|p: Seq<Part>| #[trigger] found.contains(p) <==> paths.contains(p) by {
        lemma_found(list, among, dir, names, pass, p);
        lemma_in_paths(dir, sorted, p);
        assert(sorted.contains(p.last()->Normal_0) <==> names.contains(p.last()->Normal_0) && pass(
            p.last()->Normal_0,
        ));
    }
    order::lemma_ascending_unique::<Path>(found, paths);
}

proof fn lemma_texts(id: Seq<char>, ft: Seq<char>, n: Seq<char>)
    requires
        ft_names::is_plain_path(ft),
    ensures
        ft_index::installed_text(id, ft_index::ftplugin_dir().push(Part::Normal(n)))
            == ft_index::scanned_text(id, Seq::<char>::empty() + n),
        ft_index::installed_text(id, ft_names::type_dir(ft).push(Part::Normal(n)))
            == ft_index::scanned_text(id, ft + "/"@ + n),
{
    reveal_strlit("/");
    reveal_strlit("ftplugin");
    reveal_strlit("/ftplugin/");
    reveal_strlit("opt/");
    reveal_with_fuel(text::joined, 3);
    ft_names::lemma_plain_path(ft);
    ft_names::lemma_below_text(ft);
    let dir = ft_names::type_dir(ft);
    let two = ft_index::ftplugin_dir().push(Part::Normal(n));
    let deep = dir.push(Part::Normal(n));
    let t2 = two.map_values(|c: Part| path::part_text(c));
    let t3 = deep.map_values(|c: Part| path::part_text(c));
    assert(t2 =~= seq!["ftplugin"@, n]);
    assert(t2.drop_last() =~= seq!["ftplugin"@]);
    assert(t3.drop_last() =~= dir.map_values(|c: Part| path::part_text(c)));
    assert(t3.last() == n);
    assert(path::path_text(two) =~= "ftplugin"@ + "/"@ + n);
    assert(path::path_text(deep) =~= "ftplugin"@ + "/"@ + ft + "/"@ + n);
    assert("/"@ + "ftplugin"@ + "/"@ =~= "/ftplugin/"@);
    assert(ft_index::installed_text(id, two) =~= "opt/"@ + id + ("/"@ + "ftplugin"@ + "/"@) + n);
    assert(ft_index::scanned_text(id, Seq::<char>::empty() + n) =~= "opt/"@ + id + "/ftplugin/"@ + n);
    assert(ft_index::installed_text(id, deep) =~= "opt/"@ + id + ("/"@ + "ftplugin"@ + "/"@) + (ft
        + "/"@ + n));
}

proof fn lemma_prefix_dir(p: Seq<Part>)
    ensures
        ft_index::ftplugin_dir().is_prefix_of(p) <==> p.len() > 0 && p[0] == Part::Normal(
            "ftplugin"@,
        ),
{
    let head = ft_index::ftplugin_dir();
    if head.is_prefix_of(p) {
        assert(head == p.subrange(0, 1));
        assert(head[0] == p.subrange(0, 1)[0]);
    } else if p.len() > 0 && p[0] == Part::Normal("ftplugin"@) {
        assert(head =~= p.subrange(0, 1));
    }
}

proof fn lemma_type_paths(p: Seq<Part>, ft: Seq<char>)
    ensures
        ft_index::is_suffixed(p, ft) ==> p.len() > 0 && p.last() is Normal && p
            == ft_index::ftplugin_dir().push(p.last()) && (ft + "_"@).is_prefix_of(
            p.last()->Normal_0,
        ) && ft_index::is_script_name(p.last()->Normal_0),
        ft_index::is_below(p, ft) ==> p.len() > 0 && p.last() is Normal && p == ft_names::type_dir(
            ft,
        ).push(p.last()) && ft_index::is_script_name(p.last()->Normal_0),
{
    lemma_prefix_dir(p);
    if ft_index::is_suffixed(p, ft) {
        assert(p =~= ft_index::ftplugin_dir().push(p.last()));
    }
    if ft_index::is_below(p, ft) {
        let middle = p.drop_last().skip(1);
        assert(p =~= ft_index::ftplugin_dir() + middle + seq![p.last()]);
        assert(p =~= ft_names::type_dir(ft).push(p.last()));
    }
}

proof fn lemma_paths_of_type(n: Seq<char>, ft: Seq<char>)
    requires
        ft_index::is_script_name(n),
    ensures
        (ft + "_"@).is_prefix_of(n) ==> ft_index::is_suffixed(
            ft_index::ftplugin_dir().push(Part::Normal(n)),
            ft,
        ),
        ft_index::is_below(ft_names::type_dir(ft).push(Part::Normal(n)), ft),
{
    let two = ft_index::ftplugin_dir().push(Part::Normal(n));
    let deep = ft_names::type_dir(ft).push(Part::Normal(n));
    lemma_prefix_dir(two);
    lemma_prefix_dir(deep);
    assert(deep[0] == Part::Normal("ftplugin"@));
    assert(deep.drop_last().skip(1) =~= path::parse_text(ft));
}

proof fn lemma_looks(
    ft: Seq<char>,
    is_suffixed: spec_fn(Seq<Part>) -> bool,
    begins: spec_fn(Seq<char>) -> bool,
    is_below: spec_fn(Seq<Part>) -> bool,
    scripts: spec_fn(Seq<char>) -> bool,
)
    requires
        is_suffixed == (|p: Seq<Part>| ft_index::is_suffixed(p, ft)),
        is_below == (|p: Seq<Part>| ft_index::is_below(p, ft)),
        begins == (|name: Seq<char>|
            (ft + "_"@).is_prefix_of(name) && ft_index::is_script_name(name)),
        scripts == (|name: Seq<char>| ft_index::is_script_name(name)),
    ensures
        looks_for(is_suffixed, ft_index::ftplugin_dir(), begins),
        looks_for(is_below, ft_names::type_dir(ft), scripts),
{
    reveal(looks_for);
    let dir = ft_index::ftplugin_dir();
    let own = ft_names::type_dir(ft);
    assert forall|p: Seq<Part>| #[trigger] is_suffixed(p) implies in_dir(p, dir) && begins(
        p.last()->Normal_0,
    ) by {
        lemma_type_paths(p, ft);
    }
    assert forall|n: Seq<char>| #[trigger] begins(n) implies is_suffixed(
        dir.push(Part::Normal(n)),
    ) by {
        lemma_paths_of_type(n, ft);
    }
    assert forall|p: Seq<Part>| #[trigger] is_below(p) implies in_dir(p, own) && scripts(
        p.last()->Normal_0,
    ) by {
        lemma_type_paths(p, ft);
    }
    assert forall|n: Seq<char>| #[trigger] scripts(n) implies is_below(
        own.push(Part::Normal(n)),
    ) by {
        lemma_paths_of_type(n, ft);
    }
}

proof fn lemma_listed(
    names: Seq<Seq<char>>,
    list: Seq<Seq<Part>>,
    entries: Seq<(Seq<Part>, Source)>,
    dir: Seq<Part>,
)
    requires
        ft_index::is_ftplugins(list, entries),
        are_names_in(names, entries, dir),
    ensures
        are_listed(names, list, dir),
{
    reveal(are_listed);
    assert forall|n: Seq<char>| #[trigger]
        names.contains(n) <==> list.contains(dir.push(Part::Normal(n))) by {
        assert(names.contains(n) <==> ft_index::has_ftplugin(entries, dir.push(Part::Normal(n))));
    }
}

/// The scripts of exactly a file type are found if they are listed.
proof fn lemma_exact_found(
    list: Seq<Seq<Part>>,
    entries: Seq<(Seq<Part>, Source)>,
    names: Seq<Seq<char>>,
    ft: Seq<char>,
    ext: Seq<char>,
    ending: Seq<char>,
)
    requires
        ft_names::is_plain_path(ft),
        ext == "vim"@ && ending == ".vim"@ || ext == "lua"@ && ending == ".lua"@,
        ft_index::is_ftplugins(list, entries),
        forall|p: Seq<Part>| #[trigger] ft_index::has_ftplugin(entries, p) ==> has_no_slash(p),
        are_found(names, entries, ft),
    ensures
        names.contains(ft + ending) <==> list.contains(ft_index::exact_path(ft, ext)),
{
    let name = ft + ending;
    let direct = ft_index::ftplugin_dir().push(Part::Normal(name));
    lemma_exact(Seq::empty(), ft, ext, ending);
    assert(is_exact(name, ft));
    assert(list.contains(ft_index::exact_path(ft, ext)) <==> ft_index::has_ftplugin(
        entries,
        ft_index::exact_path(ft, ext),
    ));
    if ft.contains('/') && ft_index::has_ftplugin(entries, direct) {
        assert(has_no_slash(direct));
        assert(direct[1] == Part::Normal(name));
    }
}

/// Where the name of a file type holds a slash, no name begins with it.
proof fn lemma_no_suffixed(
    list: Seq<Seq<Part>>,
    entries: Seq<(Seq<Part>, Source)>,
    names: Seq<Seq<char>>,
    ft: Seq<char>,
    is_suffixed: spec_fn(Seq<Part>) -> bool,
    begins: spec_fn(Seq<char>) -> bool,
    suffixed: Seq<Seq<char>>,
)
    requires
        ft.contains('/'),
        ft_index::is_ftplugins(list, entries),
        forall|p: Seq<Part>| #[trigger] ft_index::has_ftplugin(entries, p) ==> has_no_slash(p),
        are_found(names, entries, ft),
        is_suffixed == (|p: Seq<Part>| ft_index::is_suffixed(p, ft)),
        begins == (|name: Seq<char>|
            (ft + "_"@).is_prefix_of(name) && ft_index::is_script_name(name)),
        ft_index::picked(suffixed, names, begins),
    ensures
        list.filter(is_suffixed).len() == 0,
        suffixed.len() == 0,
{
    reveal_strlit("_");
    reveal_strlit(".vim");
    reveal_strlit(".lua");
    let found = list.filter(is_suffixed);
    lemma_filter_ascending(list, is_suffixed);
    if found.len() > 0 {
        let p = found[0];
        assert(found.contains(p));
        lemma_type_paths(p, ft);
        assert(ft_index::has_ftplugin(entries, p));
        assert(has_no_slash(p));
        lemma_begins_slash(ft, p.last()->Normal_0);
    }
    lemma_picked(suffixed, names, begins);
    if suffixed.len() > 0 {
        let n = suffixed[0];
        assert(suffixed.contains(n));
        assert(names.contains(n) && begins(n));
        lemma_begins_slash(ft, n);
        let direct = ft_index::ftplugin_dir().push(Part::Normal(n));
        if ft_index::has_ftplugin(entries, direct) {
            assert(has_no_slash(direct));
            assert(direct[1] == Part::Normal(n));
        }
        assert(n[ft.len() as int] == '_') by {
            assert((ft + "_"@)[ft.len() as int] == '_');
            assert((ft + "_"@) == n.subrange(0, ft.len() as int + 1));
        }
        assert((ft + ".vim"@)[ft.len() as int] == '.');
        assert((ft + ".lua"@)[ft.len() as int] == '.');
    }
}

proof fn lemma_begins_slash(ft: Seq<char>, name: Seq<char>)
    requires
        ft.contains('/'),
        (ft + "_"@).is_prefix_of(name),
    ensures
        name.contains('/'),
{
    let head = ft + "_"@;
    let k = choose|k: int| 0 <= k < ft.len() && ft[k] == '/';
    assert(head == name.subrange(0, head.len() as int));
    assert(head[k] == name[k]);
}

/// The paths are told by the same texts.
proof fn lemma_same_texts(
    id: Seq<char>,
    ft: Seq<char>,
    list: Seq<Seq<Part>>,
    names: Seq<Seq<char>>,
    suffixed: Seq<Seq<char>>,
    below: Seq<Seq<char>>,
)
    requires
        ft_names::is_plain_path(ft),
        names.contains(ft + ".vim"@) <==> list.contains(ft_index::exact_path(ft, "vim"@)),
        names.contains(ft + ".lua"@) <==> list.contains(ft_index::exact_path(ft, "lua"@)),
    ensures
        ft_index::installed_texts(
            id,
            ft_index::if_among(list, ft_index::exact_path(ft, "vim"@)) + ft_index::if_among(
                list,
                ft_index::exact_path(ft, "lua"@),
            ) + paths_in(ft_index::ftplugin_dir(), suffixed) + paths_in(
                ft_names::type_dir(ft),
                below,
            ),
        ) == ft_index::scanned_texts(id, Seq::empty(), ft_index::exact_names(names, ft))
            + ft_index::scanned_texts(id, Seq::empty(), suffixed) + ft_index::scanned_texts(
            id,
            ft + "/"@,
            below,
        ),
{
    let dir = ft_index::ftplugin_dir();
    let own = ft_names::type_dir(ft);
    let heads = ft_index::if_among(list, ft_index::exact_path(ft, "vim"@)) + ft_index::if_among(
        list,
        ft_index::exact_path(ft, "lua"@),
    );
    let exact = ft_index::exact_names(names, ft);
    lemma_exact(id, ft, "vim"@, ".vim"@);
    lemma_exact(id, ft, "lua"@, ".lua"@);
    assert(ft_index::installed_texts(id, heads) =~= ft_index::scanned_texts(
        id,
        Seq::empty(),
        exact,
    ));
    let all = heads + paths_in(dir, suffixed) + paths_in(own, below);
    let told = ft_index::installed_texts(id, all);
    let found = ft_index::scanned_texts(id, Seq::empty(), exact) + ft_index::scanned_texts(
        id,
        Seq::empty(),
        suffixed,
    ) + ft_index::scanned_texts(id, ft + "/"@, below);
    assert(heads.len() == exact.len());
    assert forall|i: int| 0 <= i < all.len() implies #[trigger] told[i] == found[i] by {
        if i < exact.len() {
            assert(told[i] == ft_index::installed_texts(id, heads)[i]);
        } else if i < exact.len() + suffixed.len() {
            lemma_texts(id, ft, suffixed[i - exact.len()]);
        } else {
            lemma_texts(id, ft, below[i - exact.len() - suffixed.len()]);
        }
    }
    assert(told =~= found);
}

/// What the inventories tell of a file type in a package is what a look at the installed package
/// finds, where `names` are the files directly in its directory of file type plugins and those of
/// exactly the file type, and `inner` those directly in the directory of the file type.  The name
/// of the file type may itself be a path.
pub proof fn law_index_is_what_a_scan_finds(
    files: Seq<(Seq<char>, crate::pack_plan::Package)>,
    list: Seq<Seq<Part>>,
    names: Seq<Seq<char>>,
    inner: Seq<Seq<char>>,
    ft: Seq<char>,
    id: Seq<char>,
    paths: Seq<Seq<char>>,
)
    requires
        ft_names::is_plain_path(ft),
        ft_index::package_at(files, id) is Some,
        ft_index::is_ftplugins(list, ft_index::package_at(files, id)->0.entries),
        forall|p: Seq<Part>| #[trigger]
            ft_index::has_ftplugin(ft_index::package_at(files, id)->0.entries, p) ==> has_no_slash(
                p,
            ),
        are_found(names, ft_index::package_at(files, id)->0.entries, ft),
        are_names_in(inner, ft_index::package_at(files, id)->0.entries, ft_names::type_dir(ft)),
        ft_index::is_scanned(paths, names, inner, ft, id),
    ensures
        paths == ft_index::indexed_paths(files, ft, id),
{
    let entries = ft_index::package_at(files, id)->0.entries;
    ft_index::lemma_ftplugins_unique(list, entries);
    let begins = |name: Seq<char>|
        (ft + "_"@).is_prefix_of(name) && ft_index::is_script_name(name);
    let scripts = |name: Seq<char>| ft_index::is_script_name(name);
    let (suffixed, below) = choose|suffixed: Seq<Seq<char>>, below: Seq<Seq<char>>|
        #![trigger ft_index::scanned_texts(id, Seq::empty(), suffixed), ft_index::scanned_texts(id, ft + "/"@, below)]
        ft_index::picked(suffixed, names, begins) && ft_index::picked(below, inner, scripts)
            && paths == lazy_registration::first_occurrences(
            ft_index::scanned_texts(id, Seq::empty(), ft_index::exact_names(names, ft))
                + ft_index::scanned_texts(id, Seq::empty(), suffixed) + ft_index::scanned_texts(
                id,
                ft + "/"@,
                below,
            ),
        );
    let dir = ft_index::ftplugin_dir();
    let own = ft_names::type_dir(ft);
    let is_suffixed = |p: Seq<Part>| ft_index::is_suffixed(p, ft);
    let is_below = |p: Seq<Part>| ft_index::is_below(p, ft);
    lemma_exact_found(list, entries, names, ft, "vim"@, ".vim"@);
    lemma_exact_found(list, entries, names, ft, "lua"@, ".lua"@);
    lemma_looks(ft, is_suffixed, begins, is_below, scripts);
    if ft.contains('/') {
        lemma_no_suffixed(list, entries, names, ft, is_suffixed, begins, suffixed);
        assert(list.filter(is_suffixed) =~= paths_in(dir, suffixed));
    } else {
        lemma_directly_found(names, entries, ft);
        lemma_listed(names, list, entries, dir);
        lemma_dir_names(list, is_suffixed, dir, suffixed, names, begins);
    }
    lemma_listed(inner, list, entries, own);
    lemma_dir_names(list, is_below, own, below, inner, scripts);
    lemma_same_texts(id, ft, list, names, suffixed, below);
}

/// Where the name of a file type holds no slash, what is found is what is there directly.
proof fn lemma_directly_found(
    names: Seq<Seq<char>>,
    entries: Seq<(Seq<Part>, Source)>,
    ft: Seq<char>,
)
    requires
        ft_names::is_plain_path(ft),
        !ft.contains('/'),
        are_found(names, entries, ft),
    ensures
        are_names_in(names, entries, ft_index::ftplugin_dir()),
{
    lemma_exact(Seq::empty(), ft, "vim"@, ".vim"@);
    lemma_exact(Seq::empty(), ft, "lua"@, ".lua"@);
}

/// What is found of a file type in a package is looked up under both, and nothing else changes; where
/// nothing is found the index stays.
pub proof fn law_found_is_noted(
    index: Map<Seq<char>, Map<Seq<char>, Seq<Seq<char>>>>,
    ft: Seq<char>,
    id: Seq<char>,
    paths: Seq<Seq<char>>,
    other: Seq<char>,
    other_id: Seq<char>,
)
    ensures
        ({
            let after = ft_index::with_paths(index, ft, id, paths);
            &&& paths.len() == 0 ==> after == index
            &&& paths.len() > 0 ==> after.contains_key(ft) && after[ft].contains_key(id)
                && after[ft][id] == paths
            &&& other != ft ==> (after.contains_key(other) <==> index.contains_key(other))
                && after[other] == index[other]
            &&& index.contains_key(ft) && other_id != id ==> after.contains_key(ft) && (
            after[ft].contains_key(other_id) <==> index[ft].contains_key(other_id))
                && after[ft][other_id] == index[ft][other_id]
            &&& !index.contains_key(ft) && other_id != id && paths.len() > 0
                ==> !after[ft].contains_key(other_id)
        }),
{
}

} // verus!
