//! Where a configuration file is wrong.

use crate::lazy_registration::control;
use crate::text;
use vstd::prelude::*;

pub mod laws;

verus! {

/// The number of line ends.
pub open spec fn line_ends(bytes: Seq<u8>) -> nat
    decreases bytes.len(),
{
    if bytes.len() == 0 {
        0
    } else {
        line_ends(bytes.drop_last()) + (if bytes.last() == 10u8 {
            1nat
        } else {
            0
        })
    }
}

/// Where the last line begins.
pub open spec fn last_line(bytes: Seq<u8>) -> nat
    decreases bytes.len(),
{
    if bytes.len() == 0 {
        0
    } else if bytes.last() == 10u8 {
        bytes.len()
    } else {
        last_line(bytes.drop_last())
    }
}

/// Where the line that begins at `start` ends.
pub open spec fn end_of_line(bytes: Seq<u8>, start: nat) -> nat
    decreases bytes.len() - start,
{
    if start >= bytes.len() || bytes[start as int] == 10u8 {
        start
    } else {
        end_of_line(bytes, start + 1)
    }
}

/// A line, and a place in it.
#[derive(Clone, Copy, Debug, PartialEq, Eq, Structural)]
pub struct LineInfo {
    /// The number of the line, from one.
    pub line_no: usize,
    /// The number of the byte in the line, from one.
    pub col_no: usize,
    pub line_start: usize,
    pub line_end: usize,
}

/// The line in which `offset` lies; the last line, where `offset` lies behind the end.
pub open spec fn is_line_info(info: LineInfo, bytes: Seq<u8>, offset: int) -> bool {
    let before = bytes.take(vstd::math::min(offset, bytes.len() as int));
    &&& info.line_no == line_ends(before) + 1
    &&& info.line_start == last_line(before)
    &&& info.col_no == offset - info.line_start + 1
    &&& info.line_end == end_of_line(bytes, info.line_start as nat)
}

proof fn lemma_last_line(bytes: Seq<u8>, n: int)
    requires
        0 <= n <= bytes.len(),
    ensures
        last_line(bytes.take(n)) <= n,
        forall|k: int| last_line(bytes.take(n)) <= k < n ==> #[trigger] bytes[k] != 10u8,
        line_ends(bytes.take(n)) <= n,
    decreases n,
{
    if n > 0 {
        assert(bytes.take(n).drop_last() =~= bytes.take(n - 1));
        assert(bytes.take(n).last() == bytes[n - 1]);
        lemma_last_line(bytes, n - 1);
    } else {
        assert(bytes.take(n).len() == 0);
    }
}

proof fn lemma_end_of_line(bytes: Seq<u8>, start: nat, n: nat)
    requires
        start <= n <= bytes.len(),
        forall|k: int| start <= k < n ==> #[trigger] bytes[k] != 10u8,
    ensures
        end_of_line(bytes, start) == end_of_line(bytes, n),
        n <= end_of_line(bytes, n) <= bytes.len(),
    decreases bytes.len() - start,
{
    if start < n {
        assert(bytes[start as int] != 10u8);
        lemma_end_of_line(bytes, start + 1, n);
    } else if n < bytes.len() && bytes[n as int] != 10u8 {
        lemma_end_of_line(bytes, n + 1, n + 1);
    }
}

/// The line in which `offset` lies; the last line, where `offset` lies behind the end.
pub fn line_info(input: &Vec<u8>, offset: usize) -> (info: LineInfo)
    requires
        offset < usize::MAX,
    ensures
        is_line_info(info, input@, offset as int),
        info.line_start <= offset,
        info.line_start <= info.line_end <= input@.len(),
{
    let cut: usize = if offset < input.len() {
        offset
    } else {
        input.len()
    };
    let mut line_no: usize = 1;
    let mut line_start: usize = 0;
    let mut i: usize = 0;
    assert(input@.take(0) =~= Seq::<u8>::empty());
    while i < cut
        invariant
            i <= cut <= input@.len(),
            cut < usize::MAX,
            line_no == line_ends(input@.take(i as int)) + 1,
            line_start == last_line(input@.take(i as int)),
            line_no <= i + 1,
        decreases cut - i,
    {
        proof {
            assert(input@.take(i as int + 1).drop_last() =~= input@.take(i as int));
            assert(input@.take(i as int + 1).last() == input@[i as int]);
        }
        if input[i] == 10u8 {
            line_no = line_no + 1;
            line_start = i + 1;
        }
        i = i + 1;
    }
    proof {
        lemma_last_line(input@, cut as int);
        lemma_end_of_line(input@, line_start as nat, cut as nat);
    }
    let mut line_end: usize = cut;
    while line_end < input.len() && input[line_end] != 10u8
        invariant
            cut <= line_end <= input@.len(),
            end_of_line(input@, line_end as nat) == end_of_line(input@, cut as nat),
        decreases input@.len() - line_end,
    {
        line_end = line_end + 1;
    }
    LineInfo { line_no, col_no: offset - line_start + 1, line_start, line_end }
}

/// What is marked of a line.
#[derive(Clone, Copy, Debug, PartialEq, Eq, Structural)]
pub struct Mark {
    pub info: LineInfo,
    /// How many columns are left out before the carets.
    pub indent: usize,
    /// How many carets there are: at least one.
    pub carets: usize,
    /// What is highlighted of the line.
    pub from: usize,
    pub to: usize,
}

/// What is marked of a line for what is wrong from `start` to `end`.
pub open spec fn is_mark(mark: Mark, bytes: Seq<u8>, start: int, end: int) -> bool {
    let info = mark.info;
    let length = info.line_end - info.line_start;
    let first = start - info.line_start + 1;
    let shown = vstd::math::min(end, info.line_end as int) - info.line_start;
    let last = vstd::math::max(shown, first);
    &&& is_line_info(info, bytes, start)
    &&& mark.indent == first - 1
    &&& mark.carets == vstd::math::max(last - first, 1)
    &&& mark.from == vstd::math::min(first - 1, length)
    &&& mark.to == vstd::math::min(last, length)
}

/// What is marked of a line.
pub fn mark(input: &Vec<u8>, start: usize, end: usize) -> (mark: Mark)
    requires
        start < usize::MAX,
    ensures
        is_mark(mark, input@, start as int, end as int),
        mark.from <= mark.to <= mark.info.line_end - mark.info.line_start,
{
    let info = line_info(input, start);
    let length: usize = info.line_end - info.line_start;
    let first: usize = start - info.line_start + 1;
    let capped: usize = if end < info.line_end {
        end
    } else {
        info.line_end
    };
    let shown: usize = if capped < info.line_start {
        0
    } else {
        capped - info.line_start
    };
    let last: usize = if shown < first {
        first
    } else {
        shown
    };
    let carets: usize = if last - first < 1 {
        1
    } else {
        last - first
    };
    let from: usize = if first - 1 < length {
        first - 1
    } else {
        length
    };
    let to: usize = if last < length {
        last
    } else {
        length
    };
    Mark { info, indent: first - 1, carets, from, to }
}

/// Where something stands in a text, by its first byte and the byte behind it.
pub type Place = Option<(usize, usize)>;

/// A table of a document: its place, and for each of its items the key and the place of the value.
/// What is no value has no place.
pub struct TableText {
    pub place: Place,
    pub items: Vec<(String, Place)>,
}

impl View for TableText {
    type V = (Place, Seq<(Seq<char>, Place)>);

    open spec fn view(&self) -> (Place, Seq<(Seq<char>, Place)>) {
        (self.place, self.items@.map_values(|e: (String, Place)| (e.0@, e.1)))
    }
}

/// Tables, if there are any to speak of.
pub open spec fn optional_tables(tables: Option<Vec<TableText>>) -> Option<
    Seq<(Place, Seq<(Seq<char>, Place)>)>,
> {
    match tables {
        Some(list) => Some(list@.map_values(|t: TableText| t@)),
        None => None,
    }
}

/// The array of tables that a TOML text has under a key of its root: see `tables_of`.
pub uninterp spec fn toml_tables(input: Seq<char>, key: Seq<char>) -> Option<
    Seq<(Option<(usize, usize)>, Seq<(Seq<char>, Option<(usize, usize)>)>)>,
>;

/// `toml_edit::Document::parse`: the array of tables under a key of the root of a TOML text, with
/// the place of each table and, in order, the key of each of its items and the place of its value;
/// nothing if the text is no TOML or has no array of tables there.  The contract claims that the
/// tables depend on the text and the key alone, and gives them a name.
#[verifier::external_body]
pub(crate) fn tables_of(input: &str, key: &str) -> (tables: Option<Vec<TableText>>)
    ensures
        optional_tables(tables) == toml_tables(input@, key@),
{
    let doc = toml_edit::Document::parse(input).ok()?;
    let list = doc.get(key)?.as_array_of_tables()?;
    Some(list.iter().map(|table| TableText {
        place: table.span().map(|r| (r.start, r.end)),
        items: table.iter().map(|(k, item)| {
            let span = item.as_value().and_then(|value| value.span());
            (k.to_string(), span.map(|r| (r.start, r.end)))
        }).collect(),
    }).collect())
}

/// A field of a plugin in a configuration file: its name, its text, and where that is.
#[derive(Debug)]
pub struct Field {
    pub key: String,
    pub text: String,
    pub start: usize,
    pub end: usize,
}

/// What a field is, mathematically.
pub struct FieldText {
    pub key: Seq<char>,
    pub text: Seq<char>,
    pub start: usize,
    pub end: usize,
}

impl View for Field {
    type V = FieldText;

    open spec fn view(&self) -> FieldText {
        FieldText { key: self.key@, text: self.text@, start: self.start, end: self.end }
    }
}

/// Fields as they are mathematically.
pub open spec fn field_texts(fields: Seq<Field>) -> Seq<FieldText> {
    fields.map_values(|f: Field| f@)
}

/// The fields of a table: of each item with a value, in order, the text that stands at its place.
pub open spec fn table_fields(input: Seq<char>, items: Seq<(Seq<char>, Place)>) -> Seq<FieldText>
    decreases items.len(),
{
    if items.len() == 0 {
        Seq::empty()
    } else {
        let before = table_fields(input, items.drop_last());
        match items.last().1 {
            Some((start, end)) => match text::slice_text(input, start as nat, end as nat) {
                Some(part) => before.push(
                    FieldText { key: items.last().0, text: part, start, end },
                ),
                None => before,
            },
            None => before,
        }
    }
}

/// The items of the first table at the place.
pub open spec fn items_at(tables: Seq<(Place, Seq<(Seq<char>, Place)>)>, place: Place) -> Option<
    Seq<(Seq<char>, Place)>,
>
    decreases tables.len(),
{
    if tables.len() == 0 {
        None
    } else if tables[0].0 == place {
        Some(tables[0].1)
    } else {
        items_at(tables.skip(1), place)
    }
}

/// The fields of the first table at the place from `start` to `end`.
pub open spec fn fields_at(
    tables: Option<Seq<(Place, Seq<(Seq<char>, Place)>)>>,
    input: Seq<char>,
    start: usize,
    end: usize,
) -> Option<Seq<FieldText>> {
    match tables {
        Some(list) => match items_at(list, Some((start, end))) {
            Some(items) => Some(table_fields(input, items)),
            None => None,
        },
        None => None,
    }
}

/// Fields, if there are any to speak of.
pub open spec fn optional_fields(fields: Option<Vec<Field>>) -> Option<Seq<FieldText>> {
    match fields {
        Some(list) => Some(field_texts(list@)),
        None => None,
    }
}

fn read_fields(input: &str, table: &TableText) -> (fields: Vec<Field>)
    ensures
        field_texts(fields@) == table_fields(input@, table@.1),
{
    let ghost items = table@.1;
    let mut fields: Vec<Field> = Vec::new();
    let mut i: usize = 0;
    assert(items.take(0) =~= Seq::<(Seq<char>, Place)>::empty());
    assert(field_texts(fields@) =~= Seq::<FieldText>::empty());
    while i < table.items.len()
        invariant
            i <= table.items@.len(),
            items == table@.1,
            field_texts(fields@) == table_fields(input@, items.take(i as int)),
        decreases table.items@.len() - i,
    {
        let ghost before = fields@;
        proof {
            assert(items.take(i as int + 1).drop_last() =~= items.take(i as int));
            assert(items.take(i as int + 1).last() == items[i as int]);
        }
        if let Some((start, end)) = table.items[i].1 {
            if let Some(part) = text::slice(input, start, end) {
                let key = table.items[i].0.clone();
                let ghost new = FieldText { key: key@, text: part@, start, end };
                fields.push(Field { key, text: part, start, end });
                assert(field_texts(fields@) =~= field_texts(before).push(new));
            }
        }
        i = i + 1;
    }
    assert(items.take(i as int) =~= items);
    fields
}

/// The fields of the first table at the place from `start` to `end`.
pub fn fields_in(tables: &Option<Vec<TableText>>, input: &str, start: usize, end: usize) -> (fields:
    Option<Vec<Field>>)
    ensures
        optional_fields(fields) == fields_at(optional_tables(*tables), input@, start, end),
{
    let list = match tables {
        Some(list) => list,
        None => {
            return None;
        },
    };
    let ghost all = optional_tables(*tables)->0;
    let mut i: usize = 0;
    assert(all.skip(0) =~= all);
    while i < list.len()
        invariant
            i <= list@.len(),
            all == list@.map_values(|t: TableText| t@),
            optional_tables(*tables) == Some(all),
            items_at(all, Some((start, end))) == items_at(all.skip(i as int), Some((start, end))),
        decreases list@.len() - i,
    {
        proof {
            assert(all.skip(i as int)[0] == list@[i as int]@);
            assert(all.skip(i as int).skip(1) =~= all.skip(i as int + 1));
        }
        if let Some((s, e)) = list[i].place {
            if s == start && e == end {
                return Some(read_fields(input, &list[i]));
            }
        }
        i = i + 1;
    }
    assert(all.skip(i as int).len() == 0);
    None
}

/// The fields of the plugin at the place from `start` to `end` of a configuration file.
pub fn plugin_fields(input: &str, start: usize, end: usize) -> (fields: Option<Vec<Field>>)
    ensures
        optional_fields(fields) == fields_at(
            toml_tables(input@, "plugins"@),
            input@,
            start,
            end,
        ),
{
    fields_in(&tables_of(input, "plugins"), input, start, end)
}

/// A plugin that has a repository alone.
pub open spec fn base_text(repo: Seq<char>) -> Seq<char> {
    "[[plugins]]\nrepo = "@ + repo + "\n"@
}

/// A plugin that has one more field.
pub open spec fn probe_text(base: Seq<char>, key: Seq<char>, value: Seq<char>) -> Seq<char> {
    base + key + " = "@ + value + "\n"@
}

/// A text to try, and what is to blame if it is the first that is refused.
#[derive(Debug)]
pub struct Probe {
    pub text: String,
    pub start: usize,
    pub end: usize,
}

impl View for Probe {
    type V = (Seq<char>, usize, usize);

    open spec fn view(&self) -> (Seq<char>, usize, usize) {
        (self.text@, self.start, self.end)
    }
}

/// Probes as they are mathematically.
pub open spec fn probe_texts(probes: Seq<Probe>) -> Seq<(Seq<char>, usize, usize)> {
    probes.map_values(|p: Probe| p@)
}

/// The first field that is the repository.
pub open spec fn repo_field(fields: Seq<FieldText>) -> Option<FieldText>
    decreases fields.len(),
{
    if fields.len() == 0 {
        None
    } else if fields[0].key == "repo"@ {
        Some(fields[0])
    } else {
        repo_field(fields.skip(1))
    }
}

/// The probes of the fields other than the repository, in order.
pub open spec fn other_probes(base: Seq<char>, fields: Seq<FieldText>) -> Seq<
    (Seq<char>, usize, usize),
>
    decreases fields.len(),
{
    if fields.len() == 0 {
        Seq::empty()
    } else {
        let before = other_probes(base, fields.drop_last());
        let f = fields.last();
        if f.key == "repo"@ {
            before
        } else {
            before.push((probe_text(base, f.key, f.text), f.start, f.end))
        }
    }
}

/// What is tried, in order: the repository alone, and with it each other field.  Nothing without
/// a repository.
pub open spec fn all_probes(fields: Seq<FieldText>) -> Option<Seq<(Seq<char>, usize, usize)>> {
    match repo_field(fields) {
        Some(repo) => {
            let base = base_text(repo.text);
            Some(seq![(base, repo.start, repo.end)] + other_probes(base, fields))
        },
        None => None,
    }
}

/// Probes, if there are any to speak of.
pub open spec fn optional_probes(probes: Option<Vec<Probe>>) -> Option<
    Seq<(Seq<char>, usize, usize)>,
> {
    match probes {
        Some(list) => Some(probe_texts(list@)),
        None => None,
    }
}

fn find_repo(fields: &Vec<Field>) -> (found: Option<usize>)
    ensures
        match found {
            Some(r) => r < fields@.len() && repo_field(field_texts(fields@)) == Some(
                fields@[r as int]@,
            ),
            None => repo_field(field_texts(fields@)) is None,
        },
{
    let ghost all = field_texts(fields@);
    let mut i: usize = 0;
    assert(all.skip(0) =~= all);
    while i < fields.len()
        invariant
            i <= fields@.len(),
            all == field_texts(fields@),
            repo_field(all) == repo_field(all.skip(i as int)),
        decreases fields@.len() - i,
    {
        proof {
            assert(all.skip(i as int)[0] == fields@[i as int]@);
            assert(all.skip(i as int).skip(1) =~= all.skip(i as int + 1));
        }
        if text::same(fields[i].key.as_str(), "repo") {
            return Some(i);
        }
        i = i + 1;
    }
    assert(all.skip(i as int).len() == 0);
    None
}

/// What is tried to find the field that is wrong.
pub fn probes_of(fields: &Vec<Field>) -> (probes: Option<Vec<Probe>>)
    ensures
        optional_probes(probes) == all_probes(field_texts(fields@)),
{
    let repo: usize = match find_repo(fields) {
        Some(r) => r,
        None => {
            return None;
        },
    };
    let mut base = String::from_str("[[plugins]]\nrepo = ");
    base.append(fields[repo].text.as_str());
    base.append("\n");
    let ghost all = field_texts(fields@);
    let ghost first = (base@, fields@[repo as int].start, fields@[repo as int].end);
    let mut probes: Vec<Probe> = Vec::new();
    probes.push(
        Probe { text: base.clone(), start: fields[repo].start, end: fields[repo].end },
    );
    let mut i: usize = 0;
    proof {
        assert(all.take(0) =~= Seq::<FieldText>::empty());
        assert(probe_texts(probes@) =~= seq![first] + other_probes(base@, all.take(0)));
    }
    while i < fields.len()
        invariant
            i <= fields@.len(),
            all == field_texts(fields@),
            probe_texts(probes@) == seq![first] + other_probes(base@, all.take(i as int)),
        decreases fields@.len() - i,
    {
        let field = &fields[i];
        let ghost before = probes@;
        proof {
            assert(all.take(i as int + 1).drop_last() =~= all.take(i as int));
            assert(all.take(i as int + 1).last() == field@);
        }
        if !text::same(field.key.as_str(), "repo") {
            let mut probe = base.clone();
            probe.append(field.key.as_str());
            probe.append(" = ");
            probe.append(field.text.as_str());
            probe.append("\n");
            let ghost new = (probe@, field.start, field.end);
            assert(probe@ == probe_text(base@, field.key@, field.text@));
            probes.push(Probe { text: probe, start: field.start, end: field.end });
            assert(probe_texts(probes@) =~= probe_texts(before).push(new));
            assert(probe_texts(probes@) =~= seq![first] + other_probes(
                base@,
                all.take(i as int + 1),
            ));
        }
        i = i + 1;
    }
    assert(all.take(i as int) =~= all);
    Some(probes)
}

/// What is tried to find the field that is wrong in the plugin at the place from `start` to `end`.
pub open spec fn probes_at(
    tables: Option<Seq<(Place, Seq<(Seq<char>, Place)>)>>,
    input: Seq<char>,
    start: usize,
    end: usize,
) -> Option<Seq<(Seq<char>, usize, usize)>> {
    match fields_at(tables, input, start, end) {
        Some(fields) => all_probes(fields),
        None => None,
    }
}

/// What is tried to find the field that is wrong in a plugin of a configuration file.
pub fn parse_probes(input: &str, start: usize, end: usize) -> (probes: Option<Vec<Probe>>)
    ensures
        optional_probes(probes) == probes_at(
            toml_tables(input@, "plugins"@),
            input@,
            start,
            end,
        ),
{
    match plugin_fields(input, start, end) {
        Some(fields) => probes_of(&fields),
        None => None,
    }
}

/// The place that the first refused probe blames.  Probes that nothing is told of were accepted.
pub open spec fn blamed(probes: Seq<(Seq<char>, usize, usize)>, refused: Seq<bool>) -> Place
    decreases probes.len(),
{
    if probes.len() == 0 || refused.len() == 0 {
        None
    } else if refused[0] {
        Some((probes[0].1, probes[0].2))
    } else {
        blamed(probes.skip(1), refused.skip(1))
    }
}

/// The place that the first refused probe blames.
pub fn blamed_place(probes: &Vec<Probe>, refused: &Vec<bool>) -> (found: Place)
    ensures
        found == blamed(probe_texts(probes@), refused@),
{
    let ghost all = probe_texts(probes@);
    let mut i: usize = 0;
    assert(all.skip(0) =~= all);
    assert(refused@.skip(0) =~= refused@);
    while i < probes.len() && i < refused.len()
        invariant
            i <= probes@.len(),
            i <= refused@.len(),
            all == probe_texts(probes@),
            blamed(all, refused@) == blamed(all.skip(i as int), refused@.skip(i as int)),
        decreases probes@.len() - i,
    {
        proof {
            assert(all.skip(i as int)[0] == probes@[i as int]@);
            assert(all.skip(i as int).skip(1) =~= all.skip(i as int + 1));
            assert(refused@.skip(i as int)[0] == refused@[i as int]);
            assert(refused@.skip(i as int).skip(1) =~= refused@.skip(i as int + 1));
        }
        if refused[i] {
            return Some((probes[i].start, probes[i].end));
        }
        i = i + 1;
    }
    assert(all.skip(i as int).len() == 0 || refused@.skip(i as int).len() == 0);
    None
}

/// The value that is wrong in the plugin at the place from `start` to `end`, given which of its
/// probes were refused: the repository if it is refused alone, else the first other field
/// that is refused with it.
pub fn refine_parse_error_span(input: &str, start: usize, end: usize, refused: &Vec<bool>) -> (found:
    Place)
    ensures
        found == (match probes_at(toml_tables(input@, "plugins"@), input@, start, end) {
            Some(probes) => blamed(probes, refused@),
            None => None,
        }),
{
    match parse_probes(input, start, end) {
        Some(probes) => blamed_place(&probes, refused),
        None => None,
    }
}

/// How a piece of a message is shown.
#[derive(Clone, Copy, Debug, PartialEq, Eq, Structural)]
pub enum Accent {
    /// As it is.
    Plain,
    /// As part of the frame.
    Frame,
    /// As what is wrong.
    Fault,
}

/// A piece of a message.
#[derive(Debug)]
pub struct Piece {
    pub accent: Accent,
    pub text: String,
}

impl View for Piece {
    type V = (Accent, Seq<char>);

    open spec fn view(&self) -> (Accent, Seq<char>) {
        (self.accent, self.text@)
    }
}

/// Pieces of a message.
pub open spec fn pieces(list: Seq<Piece>) -> Seq<(Accent, Seq<char>)> {
    list.map_values(|p: Piece| p@)
}

/// A number of at least two columns.
pub open spec fn two_columns(n: nat) -> Seq<char> {
    if n < 10 {
        " "@ + text::decimal_text(n)
    } else {
        text::decimal_text(n)
    }
}

/// As many carets.
pub open spec fn carets_text(n: nat) -> Seq<char> {
    Seq::new(n, |i: int| '^')
}

/// What is marked of a text for what is wrong from `start` to `end`.
pub open spec fn mark_of(bytes: Seq<u8>, start: int, end: int) -> Mark {
    choose|mark: Mark| is_mark(mark, bytes, start, end)
}

proof fn lemma_mark(mark: Mark, bytes: Seq<u8>, start: int, end: int)
    requires
        is_mark(mark, bytes, start, end),
    ensures
        mark_of(bytes, start, end) == mark,
{
    let chosen = mark_of(bytes, start, end);
    assert(is_mark(chosen, bytes, start, end));
    assert(chosen.info == mark.info);
}

/// The line of a mark in three parts: before what is wrong, what is wrong, and behind it; nothing
/// where a part does not begin and end between characters.
pub open spec fn line_parts(input: Seq<char>, mark: Mark) -> Option<
    (Seq<char>, Seq<char>, Seq<char>),
> {
    let first = mark.info.line_start as nat;
    let from = (first + mark.from) as nat;
    let to = (first + mark.to) as nat;
    match (
        text::slice_text(input, first, from),
        text::slice_text(input, from, to),
        text::slice_text(input, to, mark.info.line_end as nat),
    ) {
        (Some(before), Some(wrong), Some(behind)) => Some((before, wrong, behind)),
        _ => None,
    }
}

/// The line in which `start` lies can be shown with what is wrong from `start` to `end`.
pub open spec fn can_show(input: Seq<char>, start: int, end: int) -> bool {
    let bytes = vstd::utf8::encode_utf8(input);
    &&& start < usize::MAX
    &&& line_parts(input, mark_of(bytes, start, end)) is Some
}

/// The message for a file that could not be read: where it is wrong, the line, and carets below
/// what is wrong.
pub open spec fn message_pieces(
    path: Seq<char>,
    mark: Mark,
    parts: (Seq<char>, Seq<char>, Seq<char>),
    message: Seq<char>,
) -> Seq<(Accent, Seq<char>)> {
    seq![
        (Accent::Plain, "failed to parse config\n "@),
        (Accent::Frame, "-->"@),
        (
            Accent::Plain,
            " "@ + path + ":"@ + text::decimal_text(mark.info.line_no as nat) + ":"@
                + text::decimal_text(mark.info.col_no as nat) + "\n   "@,
        ),
        (Accent::Frame, "|"@),
        (Accent::Plain, "\n"@),
        (Accent::Frame, two_columns(mark.info.line_no as nat)),
        (Accent::Plain, " "@),
        (Accent::Frame, "|"@),
        (Accent::Plain, " "@ + parts.0),
        (Accent::Fault, parts.1),
        (Accent::Plain, parts.2 + "\n   "@),
        (Accent::Frame, "|"@),
        (Accent::Plain, " "@ + text::spaces_text(mark.indent as nat)),
        (Accent::Fault, carets_text(mark.carets as nat)),
        (Accent::Plain, " "@ + message),
    ]
}

fn carets(n: usize) -> (s: String)
    ensures
        s@ == carets_text(n as nat),
{
    let mut s = String::new();
    let mut i: usize = 0;
    assert(s@ =~= carets_text(0));
    while i < n
        invariant
            i <= n,
            s@ == carets_text(i as nat),
        decreases n - i,
    {
        text::push_char(&mut s, '^');
        i = i + 1;
        assert(s@ =~= carets_text(i as nat));
    }
    s
}

fn piece(list: &mut Vec<Piece>, accent: Accent, text: String)
    ensures
        pieces(final(list)@) == pieces(old(list)@).push((accent, text@)),
{
    let ghost before = list@;
    list.push(Piece { accent, text });
    assert(pieces(list@) =~= pieces(before).push((accent, text@)));
}

/// The mark of a place, and the line in three parts.
struct Shown {
    mark: Mark,
    before: String,
    wrong: String,
    behind: String,
}

fn shown(input: &str, start: usize, end: usize) -> (found: Option<Shown>)
    ensures
        match found {
            Some(s) => can_show(input@, start as int, end as int) && s.mark == mark_of(
                vstd::utf8::encode_utf8(input@),
                start as int,
                end as int,
            ) && line_parts(input@, s.mark) == Some((s.before@, s.wrong@, s.behind@)),
            None => !can_show(input@, start as int, end as int),
        },
{
    let bytes = control::bytes_of(input);
    if start == usize::MAX {
        return None;
    }
    let mark = mark(&bytes, start, end);
    proof {
        lemma_mark(mark, bytes@, start as int, end as int);
    }
    let first: usize = mark.info.line_start;
    let from: usize = first + mark.from;
    let to: usize = first + mark.to;
    match (
        text::slice(input, first, from),
        text::slice(input, from, to),
        text::slice(input, to, mark.info.line_end),
    ) {
        (Some(before), Some(wrong), Some(behind)) => Some(Shown { mark, before, wrong, behind }),
        _ => None,
    }
}

/// Whether the line in which `start` lies can be shown with what is wrong from `start` to `end`.
pub fn is_shown(input: &str, start: usize, end: usize) -> (can: bool)
    ensures
        can == can_show(input@, start as int, end as int),
{
    shown(input, start, end).is_some()
}

/// The message for a file that could not be read because of what stands from `start` to `end`.
pub fn format_toml_parse_error(path: &str, input: &str, start: usize, end: usize, message: &str) -> (list:
    Vec<Piece>)
    requires
        can_show(input@, start as int, end as int),
    ensures
        ({
            let mark = mark_of(vstd::utf8::encode_utf8(input@), start as int, end as int);
            pieces(list@) == message_pieces(path@, mark, line_parts(input@, mark)->0, message@)
        }),
{
    let mut list: Vec<Piece> = Vec::new();
    assert(pieces(list@) =~= Seq::<(Accent, Seq<char>)>::empty());
    let line = match shown(input, start, end) {
        Some(line) => line,
        None => {
            return list;
        },
    };
    let mark = line.mark;
    let ghost parts = (line.before@, line.wrong@, line.behind@);
    let number = text::decimal(mark.info.line_no);
    let mut place = String::from_str(" ");
    place.append(path);
    place.append(":");
    place.append(number.as_str());
    place.append(":");
    place.append(text::decimal(mark.info.col_no).as_str());
    place.append("\n   ");
    let mut columns = String::new();
    if mark.info.line_no < 10 {
        columns.append(" ");
    }
    columns.append(number.as_str());
    assert(columns@ =~= two_columns(mark.info.line_no as nat));
    let mut behind = line.behind;
    behind.append("\n   ");
    piece(&mut list, Accent::Plain, String::from_str("failed to parse config\n "));
    piece(&mut list, Accent::Frame, String::from_str("-->"));
    piece(&mut list, Accent::Plain, place);
    piece(&mut list, Accent::Frame, String::from_str("|"));
    piece(&mut list, Accent::Plain, String::from_str("\n"));
    piece(&mut list, Accent::Frame, columns);
    piece(&mut list, Accent::Plain, String::from_str(" "));
    piece(&mut list, Accent::Frame, String::from_str("|"));
    piece(&mut list, Accent::Plain, String::from_str(" ").concat(line.before.as_str()));
    piece(&mut list, Accent::Fault, line.wrong);
    piece(&mut list, Accent::Plain, behind);
    piece(&mut list, Accent::Frame, String::from_str("|"));
    piece(
        &mut list,
        Accent::Plain,
        String::from_str(" ").concat(text::spaces(mark.indent).as_str()),
    );
    piece(&mut list, Accent::Fault, carets(mark.carets));
    piece(&mut list, Accent::Plain, String::from_str(" ").concat(message));
    assert(pieces(list@) =~= message_pieces(path@, mark, parts, message@));
    list
}

/// The message for a file that could not be read, where no place is known.
pub fn format_unplaced_error(path: &str, message: &str) -> (shown: String)
    ensures
        shown@ == "failed to parse config "@ + path@ + ": "@ + message@,
{
    let mut shown = String::from_str("failed to parse config ");
    shown.append(path);
    shown.append(": ");
    shown.append(message);
    shown
}

} // verus!
