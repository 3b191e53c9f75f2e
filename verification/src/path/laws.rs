//! Paths and their texts.

use crate::path;
use crate::path::Part;
use crate::text;
use vstd::prelude::*;

verus! {

/// A name that a component of a path can have.
pub open spec fn is_name(name: Seq<char>) -> bool {
    name.len() > 0 && !name.contains('/') && name != "."@ && name != ".."@
}

/// A path of names.
pub open spec fn of_names(p: Seq<Part>) -> bool {
    forall|i: int| 0 <= i < p.len() ==> (#[trigger] p[i]) is Normal && is_name(p[i]->Normal_0)
}

proof fn lemma_parsed(pieces: Seq<Seq<char>>, n: nat, p: Seq<Part>)
    requires
        n <= pieces.len(),
        pieces.len() == p.len(),
        of_names(p),
        forall|i: int| 0 <= i < pieces.len() ==> #[trigger] pieces[i] == p[i]->Normal_0,
    ensures
        path::parsed(pieces, n) == p.take(n as int),
    decreases n,
{
    if n > 0 {
        lemma_parsed(pieces, (n - 1) as nat, p);
        let piece = pieces[n - 1];
        assert(p[n - 1] is Normal && is_name(p[n - 1]->Normal_0));
        assert(p.take(n as int) =~= p.take(n - 1).push(p[n - 1]));
    } else {
        assert(p.take(0) =~= Seq::<Part>::empty());
    }
}

/// The text of a path of names stands for the path.
pub proof fn law_text_stands_for_path(p: Seq<Part>)
    requires
        p.len() > 0,
        of_names(p),
    ensures
        path::parse_text(path::path_text(p)) == p,
{
    reveal_strlit("/");
    let pieces = p.map_values(|c: Part| path::part_text(c));
    assert("/"@ =~= seq!['/']);
    assert(p[0] is Normal);
    assert forall|i: int| 0 <= i < pieces.len() implies !(#[trigger] pieces[i]).contains('/') by {
        assert(p[i] is Normal && is_name(p[i]->Normal_0));
    }
    text::laws::law_join_splits(pieces, '/');
    assert forall|i: int| 0 <= i < pieces.len() implies #[trigger] pieces[i] == p[i]->Normal_0 by {
        assert(p[i] is Normal);
    }
    lemma_parsed(pieces, pieces.len(), p);
    assert(p.take(p.len() as int) =~= p);
}

/// A separator at the beginning is the root; other empty pieces, and `.` behind the beginning, count
/// for nothing; `..` is the parent; and every other piece is a name.
pub proof fn law_pieces(pieces: Seq<Seq<char>>, n: nat)
    requires
        0 < n <= pieces.len(),
    ensures
        ({
            let before = path::parsed(pieces, (n - 1) as nat);
            let after = path::parsed(pieces, n);
            let piece = pieces[n - 1];
            &&& is_name(piece) ==> after == before.push(Part::Normal(piece))
            &&& piece == ".."@ ==> after == before.push(Part::Parent)
            &&& piece == "."@ && n > 1 ==> after == before
            &&& piece == "."@ && n == 1 ==> after == seq![Part::Cur]
            &&& piece.len() == 0 && n > 1 ==> after == before
            &&& piece.len() == 0 && n == 1 && pieces.len() > 1 ==> after == seq![Part::Root]
            &&& piece.len() == 0 && n == 1 && pieces.len() == 1 ==> after.len() == 0
        }),
{
    reveal_strlit(".");
    reveal_strlit("..");
    assert("."@.len() == 1);
    assert(".."@.len() == 2);
    if n == 1 {
        assert(path::parsed(pieces, 0) =~= Seq::<Part>::empty());
        assert(Seq::<Part>::empty().push(Part::Cur) =~= seq![Part::Cur]);
        assert(Seq::<Part>::empty().push(Part::Root) =~= seq![Part::Root]);
    }
}

/// A path with a name behind it has the path as its parent, and is the join of both.
pub proof fn law_parent(p: Seq<Part>, name: Seq<char>)
    ensures
        path::parent_path(p.push(Part::Normal(name))) == Some(p),
        path::joined_path(p, seq![Part::Normal(name)]) == p.push(Part::Normal(name)),
        path::parent_path(Seq::empty()) is None,
        path::parent_path(seq![Part::Root]) is None,
        path::joined_path(p, Seq::empty()) == p,
        path::joined_path(p, seq![Part::Root]) == seq![Part::Root],
{
    assert(p.push(Part::Normal(name)).drop_last() =~= p);
    assert(p + seq![Part::Normal(name)] =~= p.push(Part::Normal(name)));
    assert(p + Seq::<Part>::empty() =~= p);
}

} // verus!
