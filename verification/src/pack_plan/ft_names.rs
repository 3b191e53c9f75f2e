//! The names of file types, as paths.

use crate::pack_plan::ft_index;
use crate::path;
use crate::path::Part;
use crate::text;
use vstd::prelude::*;

verus! {

/// The text is the name of one file.
pub open spec fn is_plain_name(name: Seq<char>) -> bool {
    name.len() > 0 && !name.contains('/') && name != "."@ && name != ".."@
}

/// The text is a path made of names alone: it neither begins nor ends with a slash, nor has two in
/// a row, and none of its names is `.` or `..`.
pub open spec fn is_plain_path(s: Seq<char>) -> bool {
    forall|i: int|
        0 <= i < text::split_text(s, '/').len() ==> is_plain_name(
            #[trigger] text::split_text(s, '/')[i],
        )
}

/// The directory of a file type.
pub open spec fn type_dir(ft: Seq<char>) -> Seq<Part> {
    ft_index::ftplugin_dir() + path::parse_text(ft)
}

/// The pieces of a text make it up.
proof fn lemma_pieces(s: Seq<char>)
    ensures
        text::split_text(s, '/').len() > 0,
        text::joined(text::split_text(s, '/'), "/"@) == s,
    decreases s.len(),
{
    reveal_strlit("/");
    let pieces = text::split_text(s, '/');
    if s.len() == 0 {
        assert(text::joined(pieces, "/"@) =~= s);
    } else {
        let front = s.drop_last();
        let before = text::split_text(front, '/');
        lemma_pieces(front);
        assert(s =~= front.push(s.last()));
        if s.last() == '/' {
            assert(pieces.drop_last() =~= before);
            assert(text::joined(pieces, "/"@) =~= s);
        } else {
            assert(pieces.drop_last() =~= before.drop_last());
            assert(pieces.last() == before.last().push(s.last()));
            assert(text::joined(pieces, "/"@) =~= s);
        }
    }
}

/// What follows a text without a slash belongs to its last piece.
proof fn lemma_extended(s: Seq<char>, t: Seq<char>)
    requires
        !t.contains('/'),
    ensures
        ({
            let pieces = text::split_text(s, '/');
            text::split_text(s + t, '/') == pieces.update(pieces.len() - 1, pieces.last() + t)
        }),
    decreases t.len(),
{
    let pieces = text::split_text(s, '/');
    lemma_pieces(s);
    if t.len() == 0 {
        assert(s + t =~= s);
        assert(pieces.last() + t =~= pieces.last());
        assert(pieces.update(pieces.len() - 1, pieces.last() + t) =~= pieces);
    } else {
        let front = t.drop_last();
        assert(t.contains(t.last()));
        assert(!front.contains('/')) by {
            if front.contains('/') {
                let i = choose|i: int| 0 <= i < front.len() && front[i] == '/';
                assert(t[i] == '/');
            }
        }
        lemma_extended(s, front);
        assert((s + t).drop_last() =~= s + front);
        assert((s + t).last() == t.last());
        assert((pieces.last() + front).push(t.last()) =~= pieces.last() + t);
        assert(text::split_text(s + t, '/') =~= pieces.update(
            pieces.len() - 1,
            pieces.last() + t,
        ));
    }
}

proof fn lemma_parsed_plain(pieces: Seq<Seq<char>>, n: nat)
    requires
        n <= pieces.len(),
        forall|i: int| 0 <= i < pieces.len() ==> is_plain_name(#[trigger] pieces[i]),
    ensures
        path::parsed(pieces, n) == pieces.take(n as int).map_values(
            |piece: Seq<char>| Part::Normal(piece),
        ),
    decreases n,
{
    if n > 0 {
        lemma_parsed_plain(pieces, (n - 1) as nat);
        assert(is_plain_name(pieces[n - 1]));
    }
    assert(path::parsed(pieces, n) =~= pieces.take(n as int).map_values(
        |piece: Seq<char>| Part::Normal(piece),
    ));
}

/// A plain path consists of its pieces.
pub(crate) proof fn lemma_plain_path(s: Seq<char>)
    requires
        is_plain_path(s),
    ensures
        path::parse_text(s) == text::split_text(s, '/').map_values(
            |piece: Seq<char>| Part::Normal(piece),
        ),
        path::parse_text(s).len() > 0,
        !path::absolute(path::parse_text(s)),
{
    let pieces = text::split_text(s, '/');
    lemma_pieces(s);
    lemma_parsed_plain(pieces, pieces.len());
    assert(pieces.take(pieces.len() as int) =~= pieces);
    assert(path::parse_text(s)[0] == Part::Normal(pieces[0]));
}

proof fn lemma_joined_behind(x: Seq<char>, list: Seq<Seq<char>>, sep: Seq<char>)
    requires
        list.len() > 0,
    ensures
        text::joined(seq![x] + list, sep) == x + sep + text::joined(list, sep),
    decreases list.len(),
{
    let all = seq![x] + list;
    assert(all.last() == list.last());
    if list.len() == 1 {
        assert(all.drop_last() =~= seq![x]);
        assert(text::joined(all.drop_last(), sep) == x);
        assert(text::joined(all, sep) =~= x + sep + text::joined(list, sep));
    } else {
        assert(all.drop_last() =~= seq![x] + list.drop_last());
        lemma_joined_behind(x, list.drop_last(), sep);
        assert(text::joined(all, sep) =~= x + sep + text::joined(list, sep));
    }
}

/// A plain path below the file type plugins is written as it is.
pub(crate) proof fn lemma_below_text(s: Seq<char>)
    requires
        is_plain_path(s),
    ensures
        path::path_text(ft_index::ftplugin_dir() + path::parse_text(s)) == "ftplugin"@ + "/"@ + s,
{
    let pieces = text::split_text(s, '/');
    lemma_plain_path(s);
    lemma_pieces(s);
    let all = ft_index::ftplugin_dir() + path::parse_text(s);
    let texts = all.map_values(|c: Part| path::part_text(c));
    assert(texts =~= seq!["ftplugin"@] + pieces);
    lemma_joined_behind("ftplugin"@, pieces, "/"@);
}

/// The script of exactly a file type is named by a plain path.
pub(crate) proof fn lemma_exact_plain(ft: Seq<char>, ending: Seq<char>)
    requires
        is_plain_path(ft),
        ending == ".vim"@ || ending == ".lua"@,
    ensures
        is_plain_path(ft + ending),
        ft.contains('/') ==> (ft + ending).contains('/'),
{
    reveal_strlit(".");
    reveal_strlit("..");
    reveal_strlit(".vim");
    reveal_strlit(".lua");
    let pieces = text::split_text(ft, '/');
    let all = text::split_text(ft + ending, '/');
    lemma_pieces(ft);
    assert(!ending.contains('/')) by {
        assert(ending[0] == '.' && ending.len() == 4);
        assert(ending[1] != '/' && ending[2] != '/' && ending[3] != '/');
    }
    lemma_extended(ft, ending);
    assert forall|i: int| 0 <= i < all.len() implies is_plain_name(#[trigger] all[i]) by {
        assert(is_plain_name(pieces[i]));
        if i == pieces.len() - 1 {
            let name = pieces[i] + ending;
            assert(all[i] == name);
            if name.contains('/') {
                let k = choose|k: int| 0 <= k < name.len() && name[k] == '/';
                if k < pieces[i].len() {
                    assert(pieces[i].contains(pieces[i][k]));
                } else {
                    assert(ending.contains(ending[k - pieces[i].len()]));
                }
            }
            assert(name.len() > 4);
        }
    }
    if ft.contains('/') {
        let k = choose|k: int| 0 <= k < ft.len() && ft[k] == '/';
        assert((ft + ending)[k] == '/');
    }
}

/// A plain path without a slash is one name.
pub(crate) proof fn lemma_one_name(s: Seq<char>)
    requires
        is_plain_path(s),
        !s.contains('/'),
    ensures
        path::parse_text(s) == seq![Part::Normal(s)],
{
    let none = Seq::<char>::empty();
    lemma_plain_path(s);
    lemma_extended(none, s);
    assert(none + s =~= s);
    assert(text::split_text(s, '/') =~= seq![s]);
    assert(path::parse_text(s) =~= seq![Part::Normal(s)]);
}

} // verus!
