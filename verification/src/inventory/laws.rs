//! What is taken down of a snapshot.

use crate::inventory;
use crate::inventory::Seen;
use crate::manifest::{Entry, ManifestKind};
use crate::path;
use vstd::prelude::*;

verus! {

/// A link is taken down as a link, with where it points and what is there as far as that is known;
/// anything else as a directory or as a file.
pub proof fn law_entry_of(seen: Seen)
    ensures
        ({
            let e = inventory::entry_of(seen);
            &&& e.path == seen.path@
            &&& e.kind == ManifestKind::Symlink <==> seen.is_symlink
            &&& e.kind == ManifestKind::Dir <==> !seen.is_symlink && seen.is_dir
            &&& e.kind == ManifestKind::File <==> !seen.is_symlink && !seen.is_dir
            &&& seen.is_symlink && seen.target is Some ==> e.symlink_target == Some(seen.target->0@)
            &&& !seen.is_symlink || seen.target is None ==> e.symlink_target is None
            &&& e.followed_kind == Some(ManifestKind::Dir) <==> seen.is_symlink
                && seen.target_is_dir == Some(true)
            &&& e.followed_kind == Some(ManifestKind::File) <==> seen.is_symlink
                && seen.target_is_dir == Some(false)
            &&& e.followed_kind != Some(ManifestKind::Symlink)
        }),
{
}

/// A directory adds nothing to what the digest is taken of, and any other entry its path and its
/// contents, behind those before it.
pub proof fn law_contents_count(
    es: Seq<Entry>,
    contents: Seq<Seq<u8>>,
    e: Entry,
    data: Seq<u8>,
)
    requires
        contents.len() == es.len(),
    ensures
        e.kind == ManifestKind::Dir ==> inventory::contents_code(es.push(e), contents.push(data))
            == inventory::contents_code(es, contents),
        e.kind != ManifestKind::Dir ==> inventory::contents_code(es.push(e), contents.push(data))
            == inventory::contents_code(es, contents) + vstd::utf8::encode_utf8(
            path::path_text(e.path),
        ) + seq![0u8] + data + seq![0u8],
{
    assert(es.push(e).drop_last() =~= es);
    assert(contents.push(data)[es.len() as int] == data);
    lemma_more_contents(es, contents, data);
}

proof fn lemma_more_contents(es: Seq<Entry>, contents: Seq<Seq<u8>>, data: Seq<u8>)
    requires
        contents.len() >= es.len(),
    ensures
        inventory::contents_code(es, contents.push(data)) == inventory::contents_code(es, contents),
    decreases es.len(),
{
    if es.len() > 0 {
        lemma_more_contents(es.drop_last(), contents, data);
        assert(contents.push(data)[es.len() - 1] == contents[es.len() - 1]);
    }
}

/// A directory is a module under its name, and a file under its name without the suffix; a name
/// without a dot is one as it is.
pub proof fn law_module_of(name: Seq<char>)
    ensures
        inventory::module_of(name, true) == name,
        name.len() > 0 ==> inventory::module_of(name + ".lua"@, false) == name,
        !name.contains('.') ==> inventory::module_of(name, false) == name,
{
    reveal_strlit(".lua");
    reveal_with_fuel(path::last_dot, 5);
    let file = name + ".lua"@;
    if name.len() > 0 {
        assert(file.last() == 'a');
        assert(file.drop_last().last() == 'u');
        assert(file.drop_last().drop_last().last() == 'l');
        assert(file.drop_last().drop_last().drop_last() =~= name.push('.'));
        assert(name.push('.').last() == '.');
        assert(path::last_dot(file) == name.len());
        assert(file.take(name.len() as int) =~= name);
    }
    if !name.contains('.') {
        lemma_no_dot(name);
    }
}

proof fn lemma_no_dot(name: Seq<char>)
    requires
        !name.contains('.'),
    ensures
        path::last_dot(name) == -1,
    decreases name.len(),
{
    if name.len() > 0 {
        assert(name[name.len() - 1] != '.');
        let front = name.drop_last();
        assert(!front.contains('.')) by {
            if front.contains('.') {
                let i = front.index_of('.');
                assert(name[i] == '.');
            }
        }
        lemma_no_dot(front);
    }
}

/// The inventory itself and the mark of a build are never taken down, `.git` only where it is kept,
/// and all else is.
pub proof fn law_taken_down(name: Seq<char>, dotgit: bool, mark: Seq<char>)
    ensures
        !inventory::takes_down(crate::manifest::MANIFEST_FILE@, dotgit, mark),
        !inventory::takes_down(mark, dotgit, mark),
        !inventory::takes_down(".git"@, false, mark),
        name != crate::manifest::MANIFEST_FILE@ && name != mark && name != ".git"@
            ==> inventory::takes_down(name, dotgit, mark),
        name != crate::manifest::MANIFEST_FILE@ && name != mark ==> inventory::takes_down(
            name,
            true,
            mark,
        ),
{
}

/// No directory of the documentation is searched twice, nor deeper than the hundred and
/// twenty-eighth level.
pub proof fn law_search_ends(depth: int)
    ensures
        !inventory::goes_deeper(depth, true),
        depth <= 128 ==> inventory::goes_deeper(depth, false),
        depth > 128 ==> !inventory::goes_deeper(depth, false),
{
}

} // verus!
