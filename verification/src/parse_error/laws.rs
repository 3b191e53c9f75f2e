//! Where an error is shown.

use crate::parse_error;
use crate::parse_error::{Accent, FieldText, LineInfo, Mark, Place};
use crate::text;
use vstd::prelude::*;

verus! {

/// The number of line ends adds up, and one line end counts one.
pub proof fn law_line_ends(a: Seq<u8>, b: Seq<u8>, x: u8)
    ensures
        parse_error::line_ends(a + b) == parse_error::line_ends(a) + parse_error::line_ends(b),
        parse_error::line_ends(seq![x]) == (if x == 10 {
            1nat
        } else {
            0nat
        }),
        parse_error::line_ends(Seq::empty()) == 0,
    decreases b.len(),
{
    let one = seq![x];
    assert(one.drop_last() =~= Seq::<u8>::empty());
    assert(one.last() == x);
    assert(parse_error::line_ends(one.drop_last()) == 0);
    if b.len() == 0 {
        assert(a + b =~= a);
    } else {
        law_line_ends(a, b.drop_last(), x);
        assert((a + b).drop_last() =~= a + b.drop_last());
        assert((a + b).last() == b.last());
    }
}

proof fn lemma_last_line(bytes: Seq<u8>)
    ensures
        parse_error::last_line(bytes) <= bytes.len(),
        parse_error::last_line(bytes) > 0 ==> bytes[parse_error::last_line(bytes) - 1] == 10,
        forall|i: int| parse_error::last_line(bytes) <= i < bytes.len() ==> #[trigger] bytes[i] != 10,
    decreases bytes.len(),
{
    if bytes.len() > 0 && bytes.last() != 10 {
        let front = bytes.drop_last();
        lemma_last_line(front);
        assert forall|i: int| parse_error::last_line(bytes) <= i < bytes.len() implies
            #[trigger] bytes[i] != 10 by {
            if i < front.len() {
                assert(front[i] == bytes[i]);
            }
        }
    }
}

proof fn lemma_end_of_line(bytes: Seq<u8>, start: nat)
    requires
        start <= bytes.len(),
    ensures
        start <= parse_error::end_of_line(bytes, start) <= bytes.len(),
        parse_error::end_of_line(bytes, start) < bytes.len() ==> bytes[parse_error::end_of_line(
            bytes,
            start,
        ) as int] == 10,
        forall|i: int|
            start <= i < parse_error::end_of_line(bytes, start) ==> #[trigger] bytes[i] != 10,
    decreases bytes.len() - start,
{
    if start < bytes.len() && bytes[start as int] != 10 {
        lemma_end_of_line(bytes, start + 1);
    }
}

/// The line that is shown begins at the beginning or behind a line end, ends before a line end or at
/// the end, has no line end in it, and holds the place; and its number and the column count from
/// one.
pub proof fn law_line_of_place(info: LineInfo, bytes: Seq<u8>, offset: int)
    requires
        parse_error::is_line_info(info, bytes, offset),
        0 <= offset <= bytes.len(),
    ensures
        info.line_start <= offset <= info.line_end <= bytes.len(),
        info.line_start == 0 || bytes[info.line_start - 1] == 10,
        info.line_end == bytes.len() || bytes[info.line_end as int] == 10,
        forall|i: int| info.line_start <= i < info.line_end ==> #[trigger] bytes[i] != 10,
        info.line_start + info.col_no == offset + 1,
        info.line_no == 1 + parse_error::line_ends(bytes.take(info.line_start as int)),
{
    let before = bytes.take(offset);
    lemma_last_line(before);
    lemma_end_of_line(bytes, info.line_start as nat);
    let start = info.line_start as int;
    assert forall|i: int| start <= i < offset implies #[trigger] bytes[i] != 10 by {
        assert(before[i] == bytes[i]);
    }
    if info.line_end < offset {
        assert(bytes[info.line_end as int] == 10);
    }
    assert(before =~= bytes.take(start) + bytes.subrange(start, offset));
    law_line_ends(bytes.take(start), bytes.subrange(start, offset), 0);
    lemma_no_line_end(bytes.subrange(start, offset));
    if start > 0 {
        assert(before[start - 1] == bytes[start - 1]);
    }
}

proof fn lemma_no_line_end(bytes: Seq<u8>)
    requires
        forall|i: int| 0 <= i < bytes.len() ==> #[trigger] bytes[i] != 10,
    ensures
        parse_error::line_ends(bytes) == 0,
    decreases bytes.len(),
{
    if bytes.len() > 0 {
        let front = bytes.drop_last();
        assert(bytes[bytes.len() - 1] != 10);
        assert forall|i: int| 0 <= i < front.len() implies #[trigger] front[i] != 10 by {
            assert(bytes[i] == front[i]);
        }
        lemma_no_line_end(front);
    }
}

/// What is marked lies in the line, begins where the fault does, and ends where it does or with the
/// line; there is always a caret, and never one behind the fault.
pub proof fn law_marked(mark: Mark, bytes: Seq<u8>, start: int, end: int)
    requires
        parse_error::is_mark(mark, bytes, start, end),
        0 <= start < end <= bytes.len(),
    ensures
        mark.info.line_start + mark.indent == start,
        mark.carets >= 1,
        mark.info.line_start + mark.from == start,
        mark.from <= mark.to,
        mark.info.line_start + mark.to <= mark.info.line_end,
        mark.carets > 1 ==> start + mark.carets + 1 == mark.info.line_start + mark.to,
        end <= mark.info.line_end ==> mark.info.line_start + mark.to == end,
        end > mark.info.line_end && start < mark.info.line_end ==> mark.info.line_start + mark.to
            == mark.info.line_end,
{
    law_line_of_place(mark.info, bytes, start);
}

/// The fields of a table are those of its items that have a place between characters, with the text
/// that stands there; no other has.
pub proof fn law_fields(input: Seq<char>, items: Seq<(Seq<char>, Place)>, f: FieldText)
    ensures
        parse_error::table_fields(input, items).contains(f) <==> exists|i: int|
            0 <= i < items.len() && (#[trigger] items[i]).0 == f.key && items[i].1 == Some(
                (f.start, f.end),
            ) && text::slice_text(input, f.start as nat, f.end as nat) == Some(f.text),
    decreases items.len(),
{
    if items.len() > 0 {
        let front = items.drop_last();
        let last = items.last();
        law_fields(input, front, f);
        let before = parse_error::table_fields(input, front);
        assert(items[items.len() - 1] == last);
        match last.1 {
            Some((start, end)) => match text::slice_text(input, start as nat, end as nat) {
                Some(part) => {
                    crate::order::lemma_contains_push(
                        before,
                        FieldText { key: last.0, text: part, start, end },
                        f,
                    );
                },
                None => {},
            },
            None => {},
        }
        if exists|i: int|
            0 <= i < front.len() && (#[trigger] front[i]).0 == f.key && front[i].1 == Some(
                (f.start, f.end),
            ) && text::slice_text(input, f.start as nat, f.end as nat) == Some(f.text) {
            let i = choose|i: int|
                0 <= i < front.len() && (#[trigger] front[i]).0 == f.key && front[i].1 == Some(
                    (f.start, f.end),
                ) && text::slice_text(input, f.start as nat, f.end as nat) == Some(f.text);
            assert(items[i] == front[i]);
        }
        if exists|i: int|
            0 <= i < items.len() && (#[trigger] items[i]).0 == f.key && items[i].1 == Some(
                (f.start, f.end),
            ) && text::slice_text(input, f.start as nat, f.end as nat) == Some(f.text) {
            let i = choose|i: int|
                0 <= i < items.len() && (#[trigger] items[i]).0 == f.key && items[i].1 == Some(
                    (f.start, f.end),
                ) && text::slice_text(input, f.start as nat, f.end as nat) == Some(f.text);
            if i < front.len() {
                assert(front[i] == items[i]);
            }
        }
    }
}

/// The items are those of the first table at the place, if there is one.
pub proof fn law_items_at(
    tables: Seq<(Place, Seq<(Seq<char>, Place)>)>,
    place: Place,
    i: int,
)
    ensures
        0 <= i < tables.len() && tables[i].0 == place && (forall|j: int|
            0 <= j < i ==> (#[trigger] tables[j]).0 != place) ==> parse_error::items_at(
            tables,
            place,
        ) == Some(tables[i].1),
        (forall|j: int| 0 <= j < tables.len() ==> (#[trigger] tables[j]).0 != place)
            ==> parse_error::items_at(tables, place) is None,
    decreases tables.len(),
{
    if tables.len() > 0 {
        let rest = tables.skip(1);
        law_items_at(rest, place, i - 1);
        if forall|j: int| 0 <= j < tables.len() ==> (#[trigger] tables[j]).0 != place {
            assert forall|j: int| 0 <= j < rest.len() implies (#[trigger] rest[j]).0 != place by {
                assert(rest[j] == tables[j + 1]);
            }
            assert(tables[0].0 != place);
        }
        if 0 < i < tables.len() && tables[i].0 == place && (forall|j: int|
            0 <= j < i ==> (#[trigger] tables[j]).0 != place) {
            assert(tables[0].0 != place);
            assert(rest[i - 1] == tables[i]);
            assert forall|j: int| 0 <= j < i - 1 implies (#[trigger] rest[j]).0 != place by {
                assert(rest[j] == tables[j + 1]);
            }
        }
    }
}

/// The first probe that is refused is blamed, with its own place; if none is, nothing is.
pub proof fn law_blamed(
    probes: Seq<(Seq<char>, usize, usize)>,
    refused: Seq<bool>,
    i: int,
)
    ensures
        0 <= i < probes.len() && i < refused.len() && refused[i] && (forall|j: int|
            0 <= j < i ==> !#[trigger] refused[j]) ==> parse_error::blamed(probes, refused) == Some(
            (probes[i].1, probes[i].2),
        ),
        (forall|j: int| 0 <= j < refused.len() ==> !#[trigger] refused[j]) ==> parse_error::blamed(
            probes,
            refused,
        ) is None,
    decreases probes.len(),
{
    if probes.len() > 0 && refused.len() > 0 {
        let less = refused.skip(1);
        law_blamed(probes.skip(1), less, i - 1);
        if forall|j: int| 0 <= j < refused.len() ==> !#[trigger] refused[j] {
            assert(!refused[0]);
            assert forall|j: int| 0 <= j < less.len() implies !#[trigger] less[j] by {
                assert(less[j] == refused[j + 1]);
            }
        }
        if 0 < i < probes.len() && i < refused.len() && refused[i] && (forall|j: int|
            0 <= j < i ==> !#[trigger] refused[j]) {
            assert(!refused[0]);
            assert(less[i - 1] == refused[i]);
            assert(probes.skip(1)[i - 1] == probes[i]);
            assert forall|j: int| 0 <= j < i - 1 implies !#[trigger] less[j] by {
                assert(less[j] == refused[j + 1]);
            }
        }
    }
}

proof fn lemma_repo_field(fields: Seq<FieldText>)
    ensures
        parse_error::repo_field(fields) matches Some(f) ==> f.key == "repo"@ && fields.contains(f),
        parse_error::repo_field(fields) is None ==> forall|i: int|
            0 <= i < fields.len() ==> (#[trigger] fields[i]).key != "repo"@,
    decreases fields.len(),
{
    if fields.len() > 0 {
        let rest = fields.skip(1);
        lemma_repo_field(rest);
        if fields[0].key != "repo"@ {
            if parse_error::repo_field(fields) is Some {
                let f = parse_error::repo_field(fields)->0;
                let i = rest.index_of(f);
                assert(fields[i + 1] == f);
            } else {
                assert forall|i: int| 0 <= i < fields.len() implies (#[trigger] fields[i]).key
                    != "repo"@ by {
                    if i > 0 {
                        assert(rest[i - 1] == fields[i]);
                    }
                }
            }
        }
    }
}

proof fn lemma_other_probes(base: Seq<char>, fields: Seq<FieldText>, p: (Seq<char>, usize, usize))
    ensures
        parse_error::other_probes(base, fields).contains(p) <==> exists|i: int|
            0 <= i < fields.len() && (#[trigger] fields[i]).key != "repo"@ && p == (
                base + fields[i].key + " = "@ + fields[i].text + "\n"@,
                fields[i].start,
                fields[i].end,
            ),
    decreases fields.len(),
{
    if fields.len() > 0 {
        let front = fields.drop_last();
        let f = fields.last();
        lemma_other_probes(base, front, p);
        crate::order::lemma_contains_push(
            parse_error::other_probes(base, front),
            (parse_error::probe_text(base, f.key, f.text), f.start, f.end),
            p,
        );
        assert(fields[fields.len() - 1] == f);
        if exists|i: int|
            0 <= i < front.len() && (#[trigger] front[i]).key != "repo"@ && p == (
                base + front[i].key + " = "@ + front[i].text + "\n"@,
                front[i].start,
                front[i].end,
            ) {
            let i = choose|i: int|
                0 <= i < front.len() && (#[trigger] front[i]).key != "repo"@ && p == (
                    base + front[i].key + " = "@ + front[i].text + "\n"@,
                    front[i].start,
                    front[i].end,
                );
            assert(fields[i] == front[i]);
        }
        if exists|i: int|
            0 <= i < fields.len() && (#[trigger] fields[i]).key != "repo"@ && p == (
                base + fields[i].key + " = "@ + fields[i].text + "\n"@,
                fields[i].start,
                fields[i].end,
            ) {
            let i = choose|i: int|
                0 <= i < fields.len() && (#[trigger] fields[i]).key != "repo"@ && p == (
                    base + fields[i].key + " = "@ + fields[i].text + "\n"@,
                    fields[i].start,
                    fields[i].end,
                );
            if i < front.len() {
                assert(front[i] == fields[i]);
            }
        }
    }
}

/// Fields are tried exactly if one of them is the repository: first the repository alone, at its own
/// place, and then with it each other field, at that field's place.
pub proof fn law_probes(fields: Seq<FieldText>, i: int)
    ensures
        ({
            let probes = parse_error::all_probes(fields);
            &&& probes is Some <==> exists|k: int|
                0 <= k < fields.len() && (#[trigger] fields[k]).key == "repo"@
            &&& probes is Some ==> {
                let list = probes->0;
                &&& list.len() > 0
                &&& exists|k: int|
                    0 <= k < fields.len() && (#[trigger] fields[k]).key == "repo"@ && list[0] == (
                        "[[plugins]]\nrepo = "@ + fields[k].text + "\n"@,
                        fields[k].start,
                        fields[k].end,
                    )
                &&& 0 <= i < fields.len() && fields[i].key != "repo"@ ==> list.contains(
                    (
                        list[0].0 + fields[i].key + " = "@ + fields[i].text + "\n"@,
                        fields[i].start,
                        fields[i].end,
                    ),
                )
            }
        }),
{
    lemma_repo_field(fields);
    match parse_error::repo_field(fields) {
        Some(repo) => {
            let k = fields.index_of(repo);
            assert(fields[k].key == "repo"@);
            let base = parse_error::base_text(repo.text);
            let others = parse_error::other_probes(base, fields);
            let list = parse_error::all_probes(fields)->0;
            assert(list[0] == (base, repo.start, repo.end));
            if 0 <= i < fields.len() && fields[i].key != "repo"@ {
                let p = (
                    base + fields[i].key + " = "@ + fields[i].text + "\n"@,
                    fields[i].start,
                    fields[i].end,
                );
                lemma_other_probes(base, fields, p);
                let n = others.index_of(p);
                assert(list[n + 1] == p);
            }
        },
        None => {},
    }
}

/// The parts in which a line is shown are the line: nothing of it is lost or shown twice.
pub proof fn law_parts_are_line(
    input: Seq<char>,
    mark: Mark,
    parts: (Seq<char>, Seq<char>, Seq<char>),
)
    requires
        parse_error::line_parts(input, mark) == Some(parts),
    ensures
        text::slice_text(input, mark.info.line_start as nat, mark.info.line_end as nat) == Some(
            parts.0 + parts.1 + parts.2,
        ),
        text::slice_text(
            input,
            (mark.info.line_start + mark.from) as nat,
            (mark.info.line_start + mark.to) as nat,
        ) == Some(parts.1),
{
    let first = mark.info.line_start as nat;
    let i = text::chars_before(input, first)->Some_0;
    let l = text::chars_before(input, mark.info.line_end as nat)->Some_0;
    lemma_chars_before(input, first);
    lemma_chars_before(input, mark.info.line_end as nat);
    assert(parts.0 + parts.1 + parts.2 =~= input.subrange(i as int, l as int));
}

proof fn lemma_chars_before(s: Seq<char>, n: nat)
    ensures
        text::chars_before(s, n) matches Some(i) ==> i <= s.len(),
    decreases s.len(),
{
    if n != 0 && s.len() > 0 && n >= text::char_width(s[0]) {
        lemma_chars_before(s.skip(1), (n - text::char_width(s[0])) as nat);
    }
}

/// The texts of pieces, one behind the other.
pub open spec fn joined(list: Seq<(Accent, Seq<char>)>) -> Seq<char>
    decreases list.len(),
{
    if list.len() == 0 {
        Seq::empty()
    } else {
        joined(list.drop_last()) + list.last().1
    }
}

/// The message names the file, the line and the column, and only what is wrong and the carets below
/// it are set off as wrong: as many carets as are marked, behind as much room.
pub proof fn law_message(
    path: Seq<char>,
    mark: Mark,
    parts: (Seq<char>, Seq<char>, Seq<char>),
    message: Seq<char>,
    i: int,
)
    ensures
        ({
            let list = parse_error::message_pieces(path, mark, parts, message);
            &&& list.len() == 15
            &&& 0 <= i < 15 ==> (list[i].0 == Accent::Fault <==> i == 9 || i == 13)
            &&& list[9].1 == parts.1
            &&& list[13].1.len() == mark.carets
            &&& forall|k: int| 0 <= k < mark.carets ==> #[trigger] list[13].1[k] == '^'
            &&& list[12].1.len() == mark.indent + 1
            &&& forall|k: int| 0 <= k <= mark.indent ==> #[trigger] list[12].1[k] == ' '
            &&& joined(list.take(3)) == "failed to parse config\n "@ + "-->"@ + (" "@ + path + ":"@
                + text::decimal_text(mark.info.line_no as nat) + ":"@ + text::decimal_text(
                mark.info.col_no as nat,
            ) + "\n   "@)
            &&& joined(list.subrange(8, 11)) == " "@ + parts.0 + parts.1 + (parts.2 + "\n   "@)
            &&& joined(list.subrange(14, 15)) == " "@ + message
        }),
{
    reveal_strlit(" ");
    reveal_with_fuel(joined, 4);
    let list = parse_error::message_pieces(path, mark, parts, message);
    let a = list.take(3);
    assert(a.drop_last().drop_last().drop_last() =~= Seq::empty());
    assert(joined(a) =~= a[0].1 + a[1].1 + a[2].1);
    let b = list.subrange(8, 11);
    assert(b.drop_last().drop_last().drop_last() =~= Seq::empty());
    assert(joined(b) =~= b[0].1 + b[1].1 + b[2].1);
    let c = list.subrange(14, 15);
    assert(c.drop_last() =~= Seq::empty());
    assert(joined(c) =~= c[0].1);
}

/// A number of less than two digits is set under the last of two columns.
pub proof fn law_two_columns(n: nat)
    ensures
        parse_error::two_columns(n).len() >= 2,
        n < 10 ==> parse_error::two_columns(n) == " "@ + text::decimal_text(n),
        n >= 10 ==> parse_error::two_columns(n) == text::decimal_text(n),
{
    reveal_strlit(" ");
    reveal_with_fuel(text::decimal_text, 3);
}

} // verus!
