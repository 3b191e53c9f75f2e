//! What is shown of names, files and progress.

use crate::log;
use crate::log::Group;
use crate::path::Part;
use crate::text;
use vstd::prelude::*;

verus! {

/// A name of up to twenty characters is shown as it is, and of a longer one the first eighteen and a
/// mark: so no name takes more than twenty.
pub proof fn law_names_are_cut(name: Seq<char>)
    ensures
        log::cut_name(name).len() <= 20,
        name.len() <= 20 ==> log::cut_name(name) == name,
        name.len() > 20 ==> log::cut_name(name) == name.take(18) + "……"@,
{
    reveal_strlit("……");
}

/// Three names at most are shown; where there are more, a mark says so.
pub proof fn law_three_names(names: Seq<Seq<char>>)
    ensures
        log::shown_names(names).len() <= 3,
        names.len() <= 3 ==> log::shown_names(names).len() == names.len(),
        names.len() > 3 ==> log::ellipsis_text(names) == log::ellipsis_text(names.take(3)) + " …"@,
{
    let few = names.take(3);
    if names.len() > 3 {
        assert(log::shown_names(few) =~= log::shown_names(names));
        let shown = text::joined(log::shown_names(few), " · "@);
        assert(log::ellipsis_text(few) =~= shown);
    }
}

proof fn lemma_files_in(files: Seq<Seq<Part>>, dir: Seq<Part>, p: Seq<Part>)
    ensures
        log::files_in(files, dir).contains(p) <==> files.contains(p) && log::location_of(p) == dir,
    decreases files.len(),
{
    reveal(Seq::filter);
    if files.len() > 0 {
        let front = files.drop_last();
        lemma_files_in(front, dir, p);
        assert(files =~= front.push(files.last()));
        crate::order::lemma_contains_push(front, files.last(), p);
        crate::order::lemma_contains_push(log::files_in(front, dir), files.last(), p);
    }
}

/// Every file is in the group of the directory that it lies in; a group holds nothing else; and a
/// directory has one group.
pub proof fn law_groups_hold_files(
    groups: Seq<Group>,
    files: Seq<Seq<Part>>,
    dir: Seq<Part>,
    name: Seq<char>,
)
    requires
        log::is_groups(groups, files),
    ensures
        files.contains(dir.push(Part::Normal(name))) ==> exists|i: int|
            0 <= i < groups.len() && (#[trigger] groups[i]).location == dir
                && groups[i].files.contains(dir.push(Part::Normal(name))),
        forall|i: int|
            0 <= i < groups.len() && (#[trigger] groups[i]).files.contains(
                dir.push(Part::Normal(name)),
            ) ==> groups[i].location == dir && files.contains(dir.push(Part::Normal(name))),
        forall|i: int, j: int|
            0 <= i < j < groups.len() ==> (#[trigger] groups[i]).location != (
            #[trigger] groups[j]).location,
{
    let p = dir.push(Part::Normal(name));
    assert(p.drop_last() =~= dir);
    assert(log::location_of(p) == dir);
    if files.contains(p) {
        let k = files.index_of(p);
        assert(log::has_location(groups, log::location_of(files[k])));
        let i = choose|i: int| 0 <= i < groups.len() && (#[trigger] groups[i]).location == dir;
        lemma_files_in(files, dir, p);
        assert(groups[i].files.contains(p));
    }
    assert forall|i: int| 0 <= i < groups.len() && (#[trigger] groups[i]).files.contains(
        p,
    ) implies groups[i].location == dir && files.contains(p) by {
        lemma_files_in(files, groups[i].location, p);
    }
    let places = groups.map_values(|g: Group| g.location);
    crate::order::lemma_ascending_distinct::<crate::path::Path>(places);
    assert forall|i: int, j: int| 0 <= i < j < groups.len() implies (#[trigger] groups[i]).location
        != (#[trigger] groups[j]).location by {
        assert(places[i] == groups[i].location && places[j] == groups[j].location);
        assert(places[i] != places[j]);
    }
}

/// How the files are shown: by their paths if no two lie together; by one directory if three
/// quarters of them lie in it and at most five do not, with a word on those only if there are any;
/// and else by directory.
pub proof fn law_how_files_are_shown(groups: Seq<Group>, files: Seq<Seq<Part>>, d: int)
    requires
        log::is_groups(groups, files),
        log::is_dominant(groups, d),
    ensures
        ({
            let lines = log::rendered(files);
            let total = files.len();
            let largest = groups[d].files.len();
            let apart = groups.len() == total;
            let together = !apart && 4 * largest >= 3 * total && total - largest <= 5;
            &&& apart ==> lines.len() == 1 + total
            &&& together && total == largest ==> lines.len() == 3
            &&& together && total > largest ==> lines.len() == 4
            &&& !apart && !together ==> lines.len() == 1 + 3 * groups.len()
            &&& together ==> lines[1] == "    "@ + crate::path::path_text(groups[d].location) + " ("@
                + text::decimal_text(largest) + ")"@
        }),
{
    log::law_groups_unique(groups, files);
    let e = choose|e: int| log::is_dominant(groups, e);
    assert(log::is_dominant(groups, e));
    assert(e == d) by {
        assert(groups[e].files.len() <= groups[d].files.len());
        assert(groups[d].files.len() <= groups[e].files.len());
    }
    lemma_group_lines(groups);
    lemma_group_size(groups[d], files, d, groups);
}

proof fn lemma_group_lines(groups: Seq<Group>)
    ensures
        log::all_group_lines(groups).len() == 3 * groups.len(),
    decreases groups.len(),
{
    if groups.len() > 0 {
        lemma_group_lines(groups.drop_last());
    }
}

proof fn lemma_filter_len(files: Seq<Seq<Part>>, dir: Seq<Part>)
    ensures
        log::files_in(files, dir).len() <= files.len(),
    decreases files.len(),
{
    reveal(Seq::filter);
    if files.len() > 0 {
        lemma_filter_len(files.drop_last(), dir);
    }
}

proof fn lemma_group_size(g: Group, files: Seq<Seq<Part>>, d: int, groups: Seq<Group>)
    requires
        log::is_groups(groups, files),
        0 <= d < groups.len(),
        g == groups[d],
    ensures
        g.files.len() <= files.len(),
{
    lemma_filter_len(files, g.location);
}

/// A line of a build shows the last text that overwrites what was before it; one that is blank
/// shows what was before it instead.
pub proof fn law_last_text_shows(before: Seq<char>, last: Seq<char>)
    requires
        !last.contains('\r'),
    ensures
        text::trimmed(last).len() > 0 ==> log::sanitized(before.push('\r') + last)
            == log::sanitized(last),
        text::trimmed(last).len() == 0 ==> log::sanitized(before.push('\r') + last)
            == log::sanitized(before),
        text::trimmed(last).len() == 0 ==> log::sanitized(last) is None,
        text::trimmed(last).len() > 0 ==> log::sanitized(last) == Some(
            text::replaced(text::trimmed(last), '\n', ' '),
        ),
{
    text::laws::lemma_split_more(before, last, '\r');
    let pieces = text::split_text(before, '\r');
    let all = pieces.push(last);
    assert(all.drop_last() =~= pieces);
    assert(seq![last].drop_last() =~= Seq::<Seq<char>>::empty());
    assert(log::last_written(seq![last].drop_last()) =~= Seq::<char>::empty());
    if text::trimmed(last).len() == 0 {
        assert(log::last_written(seq![last]) =~= Seq::<char>::empty());
    }
}

/// What is shown of a line of a build is on one line.
pub proof fn law_one_line(line: Seq<char>, i: int)
    requires
        log::sanitized(line) is Some,
        0 <= i < log::sanitized(line)->0.len(),
    ensures
        log::sanitized(line)->0.len() > 0,
        log::sanitized(line)->0[i] != '\n',
{
}

/// The share of the cells is the part of them that is the part of the whole, rounded down.
pub proof fn law_share(part: nat, whole: nat, width: nat)
    requires
        whole > 0,
    ensures
        log::share(part, whole, width) * whole <= part * width,
        part * width < (log::share(part, whole, width) + 1) * whole,
{
    let x = (part * width) as int;
    let w = whole as int;
    vstd::arithmetic::div_mod::lemma_fundamental_div_mod(x, w);
    vstd::arithmetic::div_mod::lemma_mod_bound(x, w);
    let q = x / w;
    assert(w * q == q * w) by (nonlinear_arith);
    assert((q + 1) * w == q * w + w) by (nonlinear_arith);
}

/// All is shown of what is done when all is done, and nothing of what is not begun.
pub proof fn law_share_ends(whole: nat, width: nat)
    requires
        whole > 0,
    ensures
        log::share(whole, whole, width) == width,
        log::share(0, whole, width) == 0,
{
    vstd::arithmetic::div_mod::lemma_div_by_multiple(width as int, whole as int);
    assert(whole * width == width * whole) by (nonlinear_arith);
    assert(0 * width == 0) by (nonlinear_arith);
    assert(0int / (whole as int) == 0) by (nonlinear_arith)
        requires
            whole > 0,
    ;
}

/// The bar fills what forty columns, a number and a label leave of the line, and is ten cells wide
/// where they leave less.
pub proof fn law_bar_fills(term_width: int, number_width: int, label_width: int)
    ensures
        ({
            let bar = log::bar_width(term_width, number_width, label_width);
            &&& bar >= 10
            &&& bar > 10 ==> bar + 40 + number_width + label_width == term_width
            &&& bar + 40 + number_width + label_width >= term_width
        }),
{
}

} // verus!
