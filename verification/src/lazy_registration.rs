//! The registration of lazy plugins: which packages each trigger loads, and which scripts run
//! around a load.

use crate::config::{Scripts, SetupScript};
use crate::lazy_type::ModeChar;
use crate::order;
use crate::order::{Key, SortedMap, SortedSet};
use crate::text;
use vstd::prelude::*;

pub mod control;
pub mod control_laws;
pub mod create;
pub mod input_laws;
pub mod inputs;
pub mod laws;
pub mod templates;
pub mod text_laws;

verus! {

/// The character is a control character.
pub open spec fn is_control(c: char) -> bool {
    (c as u32) < 32 || 127 <= (c as u32) < 160
}

/// A byte as an escape of a Lua string literal.
pub open spec fn byte_escape(b: int) -> Seq<char> {
    seq!['\\'] + three_digits(b)
}

/// A small number in three decimal digits.
pub open spec fn three_digits(n: int) -> Seq<char> {
    seq![text::digit(n / 100), text::digit(n / 10 % 10), text::digit(n % 10)]
}

/// A character as it stands in a Lua string literal.  A control character is escaped byte by byte
/// of its encoding, which is two bytes long from 128 on.
pub open spec fn lua_char(c: char) -> Seq<char> {
    if c == '"' {
        seq!['\\', '"']
    } else if c == '\\' {
        seq!['\\', '\\']
    } else if c == '\n' {
        seq!['\\', 'n']
    } else if c == '\r' {
        seq!['\\', 'r']
    } else if c == '\t' {
        seq!['\\', 't']
    } else if is_control(c) && (c as u32) < 128 {
        byte_escape((c as u32) as int)
    } else if is_control(c) {
        byte_escape(194) + byte_escape((c as u32) as int)
    } else {
        seq![c]
    }
}

/// Characters as they stand in a Lua string literal.
pub open spec fn lua_chars(s: Seq<char>) -> Seq<char>
    decreases s.len(),
{
    if s.len() == 0 {
        Seq::empty()
    } else {
        lua_chars(s.drop_last()) + lua_char(s.last())
    }
}

/// A text as a Lua string literal.
pub open spec fn lua_literal(s: Seq<char>) -> Seq<char> {
    seq!['"'] + lua_chars(s) + seq!['"']
}

/// Bytes before what was read.
pub open spec fn read_before(bytes: Seq<u8>, read: Option<(Seq<u8>, Seq<char>)>) -> Option<
    (Seq<u8>, Seq<char>),
> {
    match read {
        Some(r) => Some((bytes + r.0, r.1)),
        None => None,
    }
}

/// The value of a decimal digit.
pub open spec fn digit_value(c: char) -> int {
    (c as u32) - 48
}

/// The value of the three digits behind a backslash.
pub open spec fn escape_value(s: Seq<char>) -> int {
    digit_value(s[1]) * 100 + digit_value(s[2]) * 10 + digit_value(s[3])
}

/// Reads the rest of a string literal behind its opening quote, as Lua does: the bytes that it
/// stands for, and what follows its closing quote.  Three digits stand for one byte, any other
/// character for the bytes of its encoding.
pub open spec fn lua_read(s: Seq<char>) -> Option<(Seq<u8>, Seq<char>)>
    decreases s.len(),
{
    if s.len() == 0 {
        None
    } else if s[0] == '"' {
        Some((Seq::empty(), s.skip(1)))
    } else if s[0] == '\\' {
        if s.len() < 2 {
            None
        } else if s[1] == '"' {
            read_before(seq![34u8], lua_read(s.skip(2)))
        } else if s[1] == '\\' {
            read_before(seq![92u8], lua_read(s.skip(2)))
        } else if s[1] == 'n' {
            read_before(seq![10u8], lua_read(s.skip(2)))
        } else if s[1] == 'r' {
            read_before(seq![13u8], lua_read(s.skip(2)))
        } else if s[1] == 't' {
            read_before(seq![9u8], lua_read(s.skip(2)))
        } else if s.len() >= 4 && 0 <= digit_value(s[1]) < 10 && 0 <= digit_value(s[2]) < 10 && 0
            <= digit_value(s[3]) < 10 && escape_value(s) < 256 {
            read_before(seq![escape_value(s) as u8], lua_read(s.skip(4)))
        } else {
            None
        }
    } else if is_control(s[0]) {
        None
    } else {
        read_before(vstd::utf8::encode_scalar(s[0] as u32), lua_read(s.skip(1)))
    }
}

proof fn lemma_chars_front(s: Seq<char>)
    requires
        s.len() > 0,
    ensures
        lua_chars(s) == lua_char(s[0]) + lua_chars(s.skip(1)),
    decreases s.len(),
{
    if s.len() == 1 {
        assert(s.drop_last() =~= Seq::<char>::empty());
        assert(s.skip(1) =~= Seq::<char>::empty());
        assert(lua_chars(s) =~= lua_char(s[0]) + lua_chars(s.skip(1)));
    } else {
        lemma_chars_front(s.drop_last());
        assert(s.skip(1).drop_last() =~= s.drop_last().skip(1));
        assert(lua_chars(s) =~= lua_char(s[0]) + lua_chars(s.skip(1)));
    }
}

proof fn lemma_digits(n: int)
    requires
        0 <= n < 256,
    ensures
        ({
            let d = three_digits(n);
            &&& 0 <= digit_value(d[0]) < 10
            &&& 0 <= digit_value(d[1]) < 10
            &&& 0 <= digit_value(d[2]) < 10
            &&& digit_value(d[0]) * 100 + digit_value(d[1]) * 10 + digit_value(d[2]) == n
        }),
{
    assert(0 <= n / 100 < 10);
    assert(n / 100 * 100 + n / 10 % 10 * 10 + n % 10 == n);
}

proof fn lemma_read_escape(n: int, next: Seq<char>)
    requires
        0 <= n < 256,
    ensures
        lua_read(byte_escape(n) + next) == read_before(seq![n as u8], lua_read(next)),
{
    let s = byte_escape(n) + next;
    let d = three_digits(n);
    lemma_digits(n);
    assert(s[0] == '\\' && s[1] == d[0] && s[2] == d[1] && s[3] == d[2]);
    assert(s.skip(4) =~= next);
}

/// The encoding of small characters: one byte below 128, and two from there on.
proof fn lemma_small_encoding(c: char)
    requires
        (c as u32) < 160,
    ensures
        (c as u32) < 128 ==> vstd::utf8::encode_scalar(c as u32) == seq![(c as u32) as u8],
        128 <= (c as u32) ==> vstd::utf8::encode_scalar(c as u32) == seq![194u8, (c as u32) as u8],
{
    let v = c as u32;
    if v < 128 {
        assert((v & 0x7F) as u8 == v as u8) by (bit_vector)
            requires
                v < 128,
        ;
    } else {
        assert(0xC0 | ((v >> 6) & 0x1F) as u8 == 194u8) by (bit_vector)
            requires
                128 <= v < 160,
        ;
        assert(0x80 | (v & 0x3F) as u8 == v as u8) by (bit_vector)
            requires
                128 <= v < 160,
        ;
    }
}

proof fn lemma_read_char(c: char, next: Seq<char>)
    ensures
        lua_read(lua_char(c) + next) == read_before(
            vstd::utf8::encode_scalar(c as u32),
            lua_read(next),
        ),
{
    let s = lua_char(c) + next;
    if c == '"' || c == '\\' || c == '\n' || c == '\r' || c == '\t' {
        assert(s[0] == '\\');
        assert(s.skip(2) =~= next);
        lemma_small_encoding(c);
    } else if is_control(c) {
        let code = (c as u32) as int;
        lemma_small_encoding(c);
        lemma_read_escape(code, next);
        if code >= 128 {
            let second = byte_escape(code) + next;
            lemma_read_escape(194, second);
            assert(s =~= byte_escape(194) + second);
            let both = vstd::utf8::encode_scalar(c as u32);
            if let Some(r) = lua_read(next) {
                assert(seq![194u8] + (seq![code as u8] + r.0) =~= both + r.0);
            }
        }
    } else {
        assert(s[0] == c);
        assert(s.skip(1) =~= next);
    }
}

/// A string literal ends where it should, and Lua reads from it exactly the encoding of its text,
/// whatever follows it: no text can leave its quotes.
pub proof fn law_literal_reads_back(value: Seq<char>, rest: Seq<char>)
    ensures
        lua_literal(value)[0] == '"',
        lua_read((lua_literal(value) + rest).skip(1)) == Some(
            (vstd::utf8::encode_utf8(value), rest),
        ),
    decreases value.len(),
{
    let s = (lua_literal(value) + rest).skip(1);
    if value.len() == 0 {
        assert(s =~= seq!['"'] + rest);
        assert(s.skip(1) =~= rest);
        assert(vstd::utf8::encode_utf8(value) =~= Seq::<u8>::empty());
    } else {
        let c = value[0];
        let tail = value.skip(1);
        lemma_chars_front(value);
        law_literal_reads_back(tail, rest);
        let next = (lua_literal(tail) + rest).skip(1);
        assert(s =~= lua_char(c) + next);
        assert(value.drop_first() =~= tail);
        lemma_read_char(c, next);
    }
}

/// No control character stands raw in a string literal.
pub proof fn law_literal_is_printable(value: Seq<char>, i: int)
    requires
        0 <= i < lua_literal(value).len(),
    ensures
        !is_control(lua_literal(value)[i]),
{
    lemma_chars_printable(value);
    let all = lua_literal(value);
    if 0 < i < all.len() - 1 {
        assert(all[i] == lua_chars(value)[i - 1]);
    }
}

proof fn lemma_chars_printable(s: Seq<char>)
    ensures
        forall|i: int| 0 <= i < lua_chars(s).len() ==> !is_control(#[trigger] lua_chars(s)[i]),
    decreases s.len(),
{
    if s.len() > 0 {
        lemma_chars_printable(s.drop_last());
        let c = s.last();
        let front = lua_chars(s.drop_last());
        if is_control(c) {
            lemma_digits(194);
            lemma_digits((c as u32) as int);
        }
        assert forall|i: int| 0 <= i < lua_chars(s).len() implies !is_control(
            #[trigger] lua_chars(s)[i],
        ) by {
            if i < front.len() {
                assert(lua_chars(s)[i] == front[i]);
            } else {
                assert(lua_chars(s)[i] == lua_char(c)[i - front.len()]);
            }
        }
    }
}

fn push_digit(out: &mut String, d: u32)
    requires
        d < 10,
    ensures
        final(out)@ == old(out)@.push(text::digit(d as int)),
{
    let code: u8 = 48u8 + (d as u8);
    text::push_char(out, code as char);
}

fn push_escape(out: &mut String, b: u32)
    requires
        b < 256,
    ensures
        final(out)@ == old(out)@ + byte_escape(b as int),
{
    let ghost before = out@;
    text::push_char(out, '\\');
    push_digit(out, b / 100);
    push_digit(out, b / 10 % 10);
    push_digit(out, b % 10);
    assert(out@ =~= before + byte_escape(b as int));
}

/// A text as a Lua string literal: quoted, with quotes, backslashes and control characters
/// escaped.
pub fn lua_string(value: &str) -> (literal: String)
    ensures
        literal@ == lua_literal(value@),
{
    let chars = text::chars_of(value);
    let mut out = String::new();
    text::push_char(&mut out, '"');
    let mut i: usize = 0;
    proof {
        assert(chars@.take(0) =~= Seq::<char>::empty());
        assert(out@ =~= seq!['"'] + lua_chars(chars@.take(0)));
    }
    while i < chars.len()
        invariant
            i <= chars@.len(),
            out@ == seq!['"'] + lua_chars(chars@.take(i as int)),
        decreases chars@.len() - i,
    {
        let c: char = chars[i];
        let ghost before = out@;
        proof {
            assert(chars@.take(i as int + 1).drop_last() =~= chars@.take(i as int));
            assert(chars@.take(i as int + 1).last() == c);
        }
        let code: u32 = c as u32;
        if c == '"' {
            text::push_char(&mut out, '\\');
            text::push_char(&mut out, '"');
        } else if c == '\\' {
            text::push_char(&mut out, '\\');
            text::push_char(&mut out, '\\');
        } else if c == '\n' {
            text::push_char(&mut out, '\\');
            text::push_char(&mut out, 'n');
        } else if c == '\r' {
            text::push_char(&mut out, '\\');
            text::push_char(&mut out, 'r');
        } else if c == '\t' {
            text::push_char(&mut out, '\\');
            text::push_char(&mut out, 't');
        } else if code < 32 || code == 127 {
            push_escape(&mut out, code);
        } else if 128 <= code && code < 160 {
            push_escape(&mut out, 194);
            push_escape(&mut out, code);
        } else {
            text::push_char(&mut out, c);
        }
        assert(out@ =~= before + lua_char(c));
        assert(out@ =~= seq!['"'] + lua_chars(chars@.take(i as int + 1)));
        i = i + 1;
    }
    assert(chars@.take(i as int) =~= chars@);
    text::push_char(&mut out, '"');
    assert(out@ =~= lua_literal(value@));
    out
}

/// Packages by trigger.
pub open spec fn trigger_map(m: SortedMap<String, Vec<String>>) -> Map<Seq<char>, Seq<Seq<char>>> {
    Map::new(|k: Seq<char>| m.has(k), |k: Seq<char>| text::strings(m.at(k)@))
}

/// The packages of a trigger; none if it is not registered.
pub open spec fn ids_at(m: Map<Seq<char>, Seq<Seq<char>>>, k: Seq<char>) -> Seq<Seq<char>> {
    if m.contains_key(k) {
        m[k]
    } else {
        Seq::empty()
    }
}

/// The first occurrences of the members of a list.
pub open spec fn first_occurrences(s: Seq<Seq<char>>) -> Seq<Seq<char>>
    decreases s.len(),
{
    if s.len() == 0 {
        Seq::empty()
    } else {
        let before = first_occurrences(s.drop_last());
        if before.contains(s.last()) {
            before
        } else {
            before.push(s.last())
        }
    }
}

/// The first occurrences have the same members and no repetition.
pub proof fn law_first_occurrences(s: Seq<Seq<char>>)
    ensures
        first_occurrences(s).no_duplicates(),
        forall|x: Seq<char>| #[trigger] first_occurrences(s).contains(x) <==> s.contains(x),
    decreases s.len(),
{
    if s.len() > 0 {
        let front = s.drop_last();
        law_first_occurrences(front);
        let before = first_occurrences(front);
        assert(s =~= front.push(s.last()));
        assert forall|x: Seq<char>| #[trigger] first_occurrences(s).contains(x) <==> s.contains(x) by {
            order::lemma_contains_push(front, s.last(), x);
            order::lemma_contains_push(before, s.last(), x);
            assert(before.contains(x) <==> front.contains(x));
        }
    }
}

/// The members of a list without repetitions.
fn dedup_ids(ids: &Vec<String>) -> (kept: Vec<String>)
    ensures
        text::strings(kept@) == first_occurrences(text::strings(ids@)),
{
    let ghost all = text::strings(ids@);
    let mut kept: Vec<String> = Vec::new();
    let mut seen: SortedSet<String> = SortedSet::new();
    let mut i: usize = 0;
    proof {
        assert(all.take(0) =~= Seq::<Seq<char>>::empty());
        assert(text::strings(kept@) =~= Seq::<Seq<char>>::empty());
    }
    while i < ids.len()
        invariant
            i <= ids@.len(),
            all == text::strings(ids@),
            text::strings(kept@) == first_occurrences(all.take(i as int)),
            seen.wf(),
            forall|x: Seq<char>| #[trigger] seen.has(x) <==> text::strings(kept@).contains(x),
        decreases ids@.len() - i,
    {
        let ghost before = text::strings(kept@);
        let ghost seen0 = seen;
        let ghost raw = kept@;
        proof {
            assert(all.take(i as int + 1).drop_last() =~= all.take(i as int));
            assert(all.take(i as int + 1).last() == ids@[i as int]@);
        }
        if seen.insert(ids[i].clone()) {
            kept.push(ids[i].clone());
            proof {
                assert(text::strings(kept@) =~= before.push(ids@[i as int]@));
                assert forall|x: Seq<char>| #[trigger]
                    seen.has(x) <==> text::strings(kept@).contains(x) by {
                    order::lemma_contains_push(before, ids@[i as int]@, x);
                    assert(seen0.has(x) <==> before.contains(x));
                }
            }
        } else {
            proof {
                assert forall|x: Seq<char>| #[trigger]
                    seen.has(x) <==> text::strings(kept@).contains(x) by {
                    assert(seen0.has(x) <==> before.contains(x));
                }
            }
        }
        i = i + 1;
    }
    assert(all.take(i as int) =~= all);
    kept
}

/// Every list without repetitions.
pub open spec fn deduplicated(m: Map<Seq<char>, Seq<Seq<char>>>) -> Map<Seq<char>, Seq<Seq<char>>> {
    m.map_values(|ids: Seq<Seq<char>>| first_occurrences(ids))
}

/// Takes repetitions out of every list.
pub fn dedup_trigger_ids(records: &mut SortedMap<String, Vec<String>>)
    requires
        old(records).wf(),
    ensures
        final(records).wf(),
        final(records).keys() == old(records).keys(),
        trigger_map(*final(records)) == deduplicated(trigger_map(*old(records))),
{
    let ghost before = *records;
    let n: usize = records.len();
    let mut entries: Vec<(String, Vec<String>)> = Vec::new();
    let mut i: usize = 0;
    while i < n
        invariant
            i <= n,
            n == records.keys().len(),
            *records == before,
            before.wf(),
            entries@.len() == i,
            forall|k: int|
                0 <= k < i ==> (#[trigger] entries@[k]).0@ == before.keys()[k] && text::strings(
                    entries@[k].1@,
                ) == first_occurrences(text::strings(before.values()[k]@)),
        decreases n - i,
    {
        let key = records.key_at(i).clone();
        let ids = dedup_ids(records.value_at(i));
        entries.push((key, ids));
        i = i + 1;
    }
    records.entries = entries;
    proof {
        order::lemma_fields(*records);
        assert(records.keys() =~= before.keys());
        let after = trigger_map(*records);
        let wanted = deduplicated(trigger_map(before));
        assert(after =~= wanted) by {
            assert forall|k: Seq<char>| after.contains_key(k) implies after[k] == wanted[k] by {
                let j = before.keys().index_of(k);
                assert(before.keys()[j] == k);
                assert(records.values()[j] == entries@[j].1);
            }
        }
    }
}

/// The lists of both, one behind the other.
pub open spec fn appended(
    a: Map<Seq<char>, Seq<Seq<char>>>,
    b: Map<Seq<char>, Seq<Seq<char>>>,
) -> Map<Seq<char>, Seq<Seq<char>>> {
    Map::new(
        |k: Seq<char>| a.contains_key(k) || b.contains_key(k),
        |k: Seq<char>| ids_at(a, k) + ids_at(b, k),
    )
}

/// Appends packages to a trigger.
pub(crate) fn append_ids(map: &mut SortedMap<String, Vec<String>>, key: String, ids: Vec<String>)
    requires
        old(map).wf(),
    ensures
        final(map).wf(),
        trigger_map(*final(map)) == trigger_map(*old(map)).insert(
            key@,
            ids_at(trigger_map(*old(map)), key@) + text::strings(ids@),
        ),
{
    let ghost before = *map;
    let ghost k = key@;
    let ghost more = text::strings(ids@);
    let mut list = match map.remove(&key) {
        Some(list) => list,
        None => Vec::new(),
    };
    let ghost first = text::strings(list@);
    assert(first =~= ids_at(trigger_map(before), k));
    let mut ids = ids;
    let ghost raw = list@;
    let ghost added = ids@;
    list.append(&mut ids);
    assert(text::strings(list@) =~= first + more) by {
        assert(list@ == raw + added);
        assert(text::strings(raw + added) =~= text::strings(raw) + text::strings(added));
    }
    let ghost between = *map;
    map.insert(key, list);
    proof {
        let after = trigger_map(*map);
        let wanted = trigger_map(before).insert(k, first + more);
        assert(after =~= wanted) by {
            assert forall|x: Seq<char>| #[trigger] after.contains_key(x) <==> wanted.contains_key(x) by {
                assert(between.has(x) <==> before.has(x) && x != k);
                assert(map.has(x) <==> between.has(x) || x == k);
            }
            assert forall|x: Seq<char>| after.contains_key(x) implies after[x] == wanted[x] by {
                if x != k {
                    assert(between.has(x) && before.has(x));
                    assert(between.at(x) == before.at(x));
                    assert(map.at(x) == between.at(x));
                }
            }
        }
    }
}

/// Appends the lists of another map.
fn append_triggers(map: &mut SortedMap<String, Vec<String>>, other: SortedMap<String, Vec<String>>)
    requires
        old(map).wf(),
        other.wf(),
    ensures
        final(map).wf(),
        trigger_map(*final(map)) == appended(trigger_map(*old(map)), trigger_map(other)),
{
    let ghost a = trigger_map(*map);
    let ghost given = other;
    let ghost b = trigger_map(other);
    let ghost raw = other.entries@;
    let entries = other.entries;
    proof {
        order::lemma_fields(given);
    }
    for pair in it: entries
        invariant
            it.seq() == raw,
            raw == given.entries@,
            given.wf(),
            b == trigger_map(given),
            given.keys() == raw.map_values(|e: (String, Vec<String>)| e.0.model()),
            given.values() == raw.map_values(|e: (String, Vec<String>)| e.1),
            map.wf(),
            forall|k: Seq<char>| #[trigger]
                trigger_map(*map).contains_key(k) <==> a.contains_key(k) || exists|j: int|
                    0 <= j < it.index() && (#[trigger] given.keys()[j]) == k,
            forall|k: Seq<char>| #[trigger]
                ids_at(trigger_map(*map), k) == (if exists|j: int|
                    0 <= j < it.index() && (#[trigger] given.keys()[j]) == k {
                    ids_at(a, k) + ids_at(b, k)
                } else {
                    ids_at(a, k)
                }),
    {
        let ghost n = it.index() as int;
        let ghost now = trigger_map(*map);
        let (key, ids) = pair;
        let ghost k0 = key@;
        proof {
            assert(raw[n] == pair);
            given.lemma_at(n);
            assert(given.keys()[n] == k0);
            order::lemma_ascending_distinct::<String>(given.keys());
            assert(ids_at(b, k0) == text::strings(ids@));
            assert(!exists|j: int| 0 <= j < n && (#[trigger] given.keys()[j]) == k0);
            assert(ids_at(now, k0) == ids_at(a, k0));
        }
        append_ids(map, key, ids);
        proof {
            assert forall|k: Seq<char>| #[trigger]
                trigger_map(*map).contains_key(k) <==> a.contains_key(k) || exists|j: int|
                    0 <= j < n + 1 && (#[trigger] given.keys()[j]) == k by {
                assert(now.contains_key(k) <==> a.contains_key(k) || exists|j: int|
                    0 <= j < n && (#[trigger] given.keys()[j]) == k);
                if k == k0 {
                    assert(given.keys()[n] == k);
                }
            }
            assert forall|k: Seq<char>| #[trigger]
                ids_at(trigger_map(*map), k) == (if exists|j: int|
                    0 <= j < n + 1 && (#[trigger] given.keys()[j]) == k {
                    ids_at(a, k) + ids_at(b, k)
                } else {
                    ids_at(a, k)
                }) by {
                if k == k0 {
                    assert(given.keys()[n] == k);
                } else {
                    assert(ids_at(trigger_map(*map), k) == ids_at(now, k));
                    if exists|j: int| 0 <= j < n + 1 && (#[trigger] given.keys()[j]) == k {
                        let j = choose|j: int|
                            0 <= j < n + 1 && (#[trigger] given.keys()[j]) == k;
                        assert(j < n);
                    }
                }
            }
        }
    }
    proof {
        let after = trigger_map(*map);
        let wanted = appended(a, b);
        assert forall|k: Seq<char>| b.contains_key(k) <==> exists|j: int|
            0 <= j < raw.len() && (#[trigger] given.keys()[j]) == k by {
            if b.contains_key(k) {
                let j = given.keys().index_of(k);
                assert(given.keys()[j] == k);
            }
            if exists|j: int| 0 <= j < raw.len() && (#[trigger] given.keys()[j]) == k {
                let j = choose|j: int| 0 <= j < raw.len() && (#[trigger] given.keys()[j]) == k;
                given.lemma_at(j);
            }
        }
        assert(after =~= wanted) by {
            assert forall|k: Seq<char>| after.contains_key(k) implies after[k] == wanted[k] by {
                assert(ids_at(after, k) == after[k]);
                if !b.contains_key(k) {
                    assert(ids_at(a, k) + ids_at(b, k) =~= ids_at(a, k));
                }
            }
        }
    }
}

/// Key mappings by mode: packages by pattern.
pub open spec fn key_map(m: SortedMap<ModeChar, SortedMap<String, Vec<String>>>) -> Map<
    Option<char>,
    Map<Seq<char>, Seq<Seq<char>>>,
> {
    Map::new(|k: Option<char>| m.has(k), |k: Option<char>| trigger_map(m.at(k)))
}

/// The mappings of a mode; none if it has none.
pub open spec fn mode_at(
    m: Map<Option<char>, Map<Seq<char>, Seq<Seq<char>>>>,
    k: Option<char>,
) -> Map<Seq<char>, Seq<Seq<char>>> {
    if m.contains_key(k) {
        m[k]
    } else {
        Map::empty()
    }
}

/// The mappings of both, the packages of a pattern one behind the other.
pub open spec fn appended_keys(
    a: Map<Option<char>, Map<Seq<char>, Seq<Seq<char>>>>,
    b: Map<Option<char>, Map<Seq<char>, Seq<Seq<char>>>>,
) -> Map<Option<char>, Map<Seq<char>, Seq<Seq<char>>>> {
    Map::new(
        |k: Option<char>| a.contains_key(k) || b.contains_key(k),
        |k: Option<char>| appended(mode_at(a, k), mode_at(b, k)),
    )
}

/// Every list of mappings without repetitions.
pub open spec fn deduplicated_keys(m: Map<Option<char>, Map<Seq<char>, Seq<Seq<char>>>>) -> Map<
    Option<char>,
    Map<Seq<char>, Seq<Seq<char>>>,
> {
    m.map_values(|inner: Map<Seq<char>, Seq<Seq<char>>>| deduplicated(inner))
}

/// All maps are in order.
pub open spec fn key_map_wf(m: SortedMap<ModeChar, SortedMap<String, Vec<String>>>) -> bool {
    m.wf() && forall|k: Option<char>| #[trigger] m.has(k) ==> m.at(k).wf()
}

/// The setup scripts of a package.
pub struct PkgId2ScriptsItem {
    pub pkgid: String,
    pub script: SetupScript,
    pub order: usize,
    /// Whether the package is loaded at startup.
    pub start: bool,
}

/// What the setup scripts of a package are, mathematically.
pub struct ScriptsItem {
    pub pkgid: Seq<char>,
    pub script: Scripts,
    pub order: int,
    pub start: bool,
}

impl View for PkgId2ScriptsItem {
    type V = ScriptsItem;

    open spec fn view(&self) -> ScriptsItem {
        ScriptsItem {
            pkgid: self.pkgid@,
            script: self.script@,
            order: self.order as int,
            start: self.start,
        }
    }
}

/// The items of a list.
pub open spec fn script_items(list: Seq<PkgId2ScriptsItem>) -> Seq<ScriptsItem> {
    list.map_values(|i: PkgId2ScriptsItem| i@)
}

/// What loads lazy packages, and the scripts around it.
pub struct LazyRegistration {
    pub pkgid2scripts: Vec<PkgId2ScriptsItem>,
    pub event2pkgid: SortedMap<String, Vec<String>>,
    pub cmd2pkgid: SortedMap<String, Vec<String>>,
    pub ft2pkgid: SortedMap<String, Vec<String>>,
    pub func2pkgid: SortedMap<String, Vec<String>>,
    pub luam2pkgid: SortedMap<String, Vec<String>>,
    /// The packages to load with a plugin of this name.
    pub source_name2pkgid: SortedMap<String, Vec<String>>,
    /// The package that has a plugin of this name.
    pub source_target2pkgid: SortedMap<String, String>,
    pub keypattern2pkgid: SortedMap<ModeChar, SortedMap<String, Vec<String>>>,
}

/// What a registration is, mathematically.
pub struct Registration {
    pub scripts: Seq<ScriptsItem>,
    pub events: Map<Seq<char>, Seq<Seq<char>>>,
    pub cmds: Map<Seq<char>, Seq<Seq<char>>>,
    pub fts: Map<Seq<char>, Seq<Seq<char>>>,
    pub funcs: Map<Seq<char>, Seq<Seq<char>>>,
    pub luams: Map<Seq<char>, Seq<Seq<char>>>,
    pub sources: Map<Seq<char>, Seq<Seq<char>>>,
    pub targets: Map<Seq<char>, Seq<char>>,
    pub keys: Map<Option<char>, Map<Seq<char>, Seq<Seq<char>>>>,
}

/// Package by name.
pub open spec fn target_map(m: SortedMap<String, String>) -> Map<Seq<char>, Seq<char>> {
    Map::new(|k: Seq<char>| m.has(k), |k: Seq<char>| m.at(k)@)
}

impl View for LazyRegistration {
    type V = Registration;

    open spec fn view(&self) -> Registration {
        Registration {
            scripts: script_items(self.pkgid2scripts@),
            events: trigger_map(self.event2pkgid),
            cmds: trigger_map(self.cmd2pkgid),
            fts: trigger_map(self.ft2pkgid),
            funcs: trigger_map(self.func2pkgid),
            luams: trigger_map(self.luam2pkgid),
            sources: trigger_map(self.source_name2pkgid),
            targets: target_map(self.source_target2pkgid),
            keys: key_map(self.keypattern2pkgid),
        }
    }
}

/// A registration of nothing.
pub open spec fn no_registration() -> Registration {
    Registration {
        scripts: Seq::empty(),
        events: Map::empty(),
        cmds: Map::empty(),
        fts: Map::empty(),
        funcs: Map::empty(),
        luams: Map::empty(),
        sources: Map::empty(),
        targets: Map::empty(),
        keys: Map::empty(),
    }
}

/// No triggers.
pub open spec fn no_triggers() -> Map<Seq<char>, Seq<Seq<char>>> {
    Map::empty()
}

/// Nothing is registered.  A mode without mappings counts for nothing.
pub open spec fn registers_nothing(r: Registration) -> bool {
    &&& r.scripts.len() == 0
    &&& r.events == no_triggers()
    &&& r.cmds == no_triggers()
    &&& r.fts == no_triggers()
    &&& r.funcs == no_triggers()
    &&& r.luams == no_triggers()
    &&& r.sources == no_triggers()
    &&& r.targets == Map::<Seq<char>, Seq<char>>::empty()
    &&& forall|m: Option<char>| #[trigger] r.keys.contains_key(m) ==> r.keys[m] == no_triggers()
}

/// Two registrations in one: the packages of a trigger in order, without repetitions; of two
/// packages with a plugin of the same name the later one.
pub open spec fn both(a: Registration, b: Registration) -> Registration {
    Registration {
        scripts: a.scripts + b.scripts,
        events: deduplicated(appended(a.events, b.events)),
        cmds: deduplicated(appended(a.cmds, b.cmds)),
        fts: deduplicated(appended(a.fts, b.fts)),
        funcs: deduplicated(appended(a.funcs, b.funcs)),
        luams: deduplicated(appended(a.luams, b.luams)),
        sources: deduplicated(appended(a.sources, b.sources)),
        targets: a.targets.union_prefer_right(b.targets),
        keys: deduplicated_keys(appended_keys(a.keys, b.keys)),
    }
}

/// All registrations in one.
pub open spec fn all_of(list: Seq<Registration>) -> Registration
    decreases list.len(),
{
    if list.len() == 0 {
        no_registration()
    } else {
        both(all_of(list.drop_last()), list.last())
    }
}

pub(crate) fn append_keys(
    map: &mut SortedMap<ModeChar, SortedMap<String, Vec<String>>>,
    mode: ModeChar,
    more: SortedMap<String, Vec<String>>,
)
    requires
        key_map_wf(*old(map)),
        more.wf(),
    ensures
        key_map_wf(*final(map)),
        key_map(*final(map)) == key_map(*old(map)).insert(
            mode.0,
            appended(mode_at(key_map(*old(map)), mode.0), trigger_map(more)),
        ),
{
    let ghost before = *map;
    let ghost k = mode.0;
    let mut inner = match map.remove(&mode) {
        Some(inner) => inner,
        None => SortedMap::new(),
    };
    let ghost between = *map;
    assert(trigger_map(inner) =~= mode_at(key_map(before), k));
    append_triggers(&mut inner, more);
    let ghost joined = trigger_map(inner);
    map.insert(mode, inner);
    proof {
        assert forall|x: Option<char>| #[trigger] map.has(x) implies map.at(x).wf() by {
            if x != k {
                assert(between.has(x));
                assert(before.has(x));
                assert(map.at(x) == between.at(x));
                assert(between.at(x) == before.at(x));
            }
        }
        let after = key_map(*map);
        let wanted = key_map(before).insert(k, joined);
        assert(after =~= wanted) by {
            assert forall|x: Option<char>| #[trigger] after.contains_key(x) <==> wanted.contains_key(x) by {
                assert(between.has(x) <==> before.has(x) && x != k);
                assert(map.has(x) <==> between.has(x) || x == k);
            }
            assert forall|x: Option<char>| after.contains_key(x) implies after[x] == wanted[x] by {
                if x != k {
                    assert(between.has(x) && before.has(x));
                    assert(between.at(x) == before.at(x));
                    assert(map.at(x) == between.at(x));
                }
            }
        }
    }
}

fn append_all_keys(
    map: &mut SortedMap<ModeChar, SortedMap<String, Vec<String>>>,
    other: SortedMap<ModeChar, SortedMap<String, Vec<String>>>,
)
    requires
        key_map_wf(*old(map)),
        key_map_wf(other),
    ensures
        key_map_wf(*final(map)),
        key_map(*final(map)) == appended_keys(key_map(*old(map)), key_map(other)),
{
    let ghost a = key_map(*map);
    let ghost given = other;
    let ghost b = key_map(other);
    let ghost raw = other.entries@;
    let entries = other.entries;
    proof {
        order::lemma_fields(given);
    }
    for pair in it: entries
        invariant
            it.seq() == raw,
            raw == given.entries@,
            key_map_wf(given),
            b == key_map(given),
            given.keys() == raw.map_values(
                |e: (ModeChar, SortedMap<String, Vec<String>>)| e.0.model(),
            ),
            given.values() == raw.map_values(
                |e: (ModeChar, SortedMap<String, Vec<String>>)| e.1,
            ),
            key_map_wf(*map),
            forall|k: Option<char>| #[trigger]
                key_map(*map).contains_key(k) <==> a.contains_key(k) || exists|j: int|
                    0 <= j < it.index() && (#[trigger] given.keys()[j]) == k,
            forall|k: Option<char>| #[trigger]
                mode_at(key_map(*map), k) == (if exists|j: int|
                    0 <= j < it.index() && (#[trigger] given.keys()[j]) == k {
                    appended(mode_at(a, k), mode_at(b, k))
                } else {
                    mode_at(a, k)
                }),
    {
        let ghost n = it.index() as int;
        let ghost now = key_map(*map);
        let (mode, inner) = pair;
        let ghost k0 = mode.0;
        proof {
            assert(raw[n] == pair);
            given.lemma_at(n);
            assert(given.keys()[n] == k0);
            order::lemma_ascending_distinct::<ModeChar>(given.keys());
            assert(mode_at(b, k0) == trigger_map(inner));
            assert(!exists|j: int| 0 <= j < n && (#[trigger] given.keys()[j]) == k0);
            assert(mode_at(now, k0) == mode_at(a, k0));
        }
        append_keys(map, mode, inner);
        proof {
            assert forall|k: Option<char>| #[trigger]
                key_map(*map).contains_key(k) <==> a.contains_key(k) || exists|j: int|
                    0 <= j < n + 1 && (#[trigger] given.keys()[j]) == k by {
                assert(now.contains_key(k) <==> a.contains_key(k) || exists|j: int|
                    0 <= j < n && (#[trigger] given.keys()[j]) == k);
                if k == k0 {
                    assert(given.keys()[n] == k);
                }
            }
            assert forall|k: Option<char>| #[trigger]
                mode_at(key_map(*map), k) == (if exists|j: int|
                    0 <= j < n + 1 && (#[trigger] given.keys()[j]) == k {
                    appended(mode_at(a, k), mode_at(b, k))
                } else {
                    mode_at(a, k)
                }) by {
                if k == k0 {
                    assert(given.keys()[n] == k);
                } else {
                    assert(mode_at(key_map(*map), k) == mode_at(now, k));
                    if exists|j: int| 0 <= j < n + 1 && (#[trigger] given.keys()[j]) == k {
                        let j = choose|j: int|
                            0 <= j < n + 1 && (#[trigger] given.keys()[j]) == k;
                        assert(j < n);
                    }
                }
            }
        }
    }
    proof {
        let after = key_map(*map);
        let wanted = appended_keys(a, b);
        assert forall|k: Option<char>| b.contains_key(k) <==> exists|j: int|
            0 <= j < raw.len() && (#[trigger] given.keys()[j]) == k by {
            if b.contains_key(k) {
                let j = given.keys().index_of(k);
                assert(given.keys()[j] == k);
            }
            if exists|j: int| 0 <= j < raw.len() && (#[trigger] given.keys()[j]) == k {
                let j = choose|j: int| 0 <= j < raw.len() && (#[trigger] given.keys()[j]) == k;
                given.lemma_at(j);
            }
        }
        assert(after =~= wanted) by {
            assert forall|k: Option<char>| after.contains_key(k) implies after[k] == wanted[k] by {
                assert(mode_at(after, k) == after[k]);
                if !b.contains_key(k) {
                    lemma_append_nothing(mode_at(a, k));
                }
            }
        }
    }
}

proof fn lemma_append_nothing(m: Map<Seq<char>, Seq<Seq<char>>>)
    ensures
        appended(m, Map::empty()) == m,
{
    let none = Map::<Seq<char>, Seq<Seq<char>>>::empty();
    assert(appended(m, none) =~= m) by {
        assert forall|k: Seq<char>| m.contains_key(k) implies appended(m, none)[k] == m[k] by {
            assert(ids_at(m, k) + ids_at(none, k) =~= m[k]);
        }
    }
}

fn dedup_all_keys(map: &mut SortedMap<ModeChar, SortedMap<String, Vec<String>>>)
    requires
        key_map_wf(*old(map)),
    ensures
        key_map_wf(*final(map)),
        key_map(*final(map)) == deduplicated_keys(key_map(*old(map))),
{
    let ghost before = *map;
    let mut old_entries: Vec<(ModeChar, SortedMap<String, Vec<String>>)> = Vec::new();
    std::mem::swap(&mut old_entries, &mut map.entries);
    let ghost raw = old_entries@;
    proof {
        order::lemma_fields(before);
    }
    let mut entries: Vec<(ModeChar, SortedMap<String, Vec<String>>)> = Vec::new();
    for pair in it: old_entries
        invariant
            it.seq() == raw,
            raw == before.entries@,
            key_map_wf(before),
            before.keys() == raw.map_values(
                |e: (ModeChar, SortedMap<String, Vec<String>>)| e.0.model(),
            ),
            before.values() == raw.map_values(
                |e: (ModeChar, SortedMap<String, Vec<String>>)| e.1,
            ),
            entries@.len() == it.index(),
            forall|k: int|
                0 <= k < entries@.len() ==> {
                    &&& (#[trigger] entries@[k]).0.0 == before.keys()[k]
                    &&& entries@[k].1.wf()
                    &&& trigger_map(entries@[k].1) == deduplicated(trigger_map(before.values()[k]))
                },
    {
        let ghost n = it.index() as int;
        let (mode, inner) = pair;
        let mut inner = inner;
        proof {
            assert(raw[n] == pair);
            before.lemma_at(n);
        }
        dedup_trigger_ids(&mut inner);
        entries.push((mode, inner));
    }
    map.entries = entries;
    proof {
        order::lemma_fields(*map);
        assert(map.keys() =~= before.keys());
        assert forall|k: Option<char>| #[trigger] map.has(k) implies map.at(k).wf() by {
            let j = map.keys().index_of(k);
            assert(map.keys()[j] == k);
            assert(map.values()[j] == entries@[j].1);
        }
        let after = key_map(*map);
        let wanted = deduplicated_keys(key_map(before));
        assert(after =~= wanted) by {
            assert forall|k: Option<char>| after.contains_key(k) implies after[k] == wanted[k] by {
                let j = before.keys().index_of(k);
                assert(before.keys()[j] == k);
                assert(map.values()[j] == entries@[j].1);
            }
        }
    }
}

fn extend_targets(map: &mut SortedMap<String, String>, other: SortedMap<String, String>)
    requires
        old(map).wf(),
        other.wf(),
    ensures
        final(map).wf(),
        target_map(*final(map)) == target_map(*old(map)).union_prefer_right(target_map(other)),
{
    let ghost a = target_map(*map);
    let ghost given = other;
    let ghost b = target_map(other);
    let ghost raw = other.entries@;
    let entries = other.entries;
    proof {
        order::lemma_fields(given);
    }
    for pair in it: entries
        invariant
            it.seq() == raw,
            raw == given.entries@,
            given.wf(),
            b == target_map(given),
            given.keys() == raw.map_values(|e: (String, String)| e.0.model()),
            given.values() == raw.map_values(|e: (String, String)| e.1),
            map.wf(),
            forall|k: Seq<char>| #[trigger]
                map.has(k) <==> a.contains_key(k) || exists|j: int|
                    0 <= j < it.index() && (#[trigger] given.keys()[j]) == k,
            forall|k: Seq<char>| #[trigger]
                map.has(k) ==> map.at(k)@ == (if exists|j: int|
                    0 <= j < it.index() && (#[trigger] given.keys()[j]) == k {
                    b[k]
                } else {
                    a[k]
                }),
    {
        let ghost n = it.index() as int;
        let ghost now = *map;
        let (key, id) = pair;
        let ghost k0 = key@;
        proof {
            assert(raw[n] == pair);
            given.lemma_at(n);
            assert(given.keys()[n] == k0);
        }
        map.insert(key, id);
        proof {
            assert forall|k: Seq<char>| #[trigger]
                map.has(k) <==> a.contains_key(k) || exists|j: int|
                    0 <= j < n + 1 && (#[trigger] given.keys()[j]) == k by {
                assert(now.has(k) <==> a.contains_key(k) || exists|j: int|
                    0 <= j < n && (#[trigger] given.keys()[j]) == k);
                if k == k0 {
                    assert(given.keys()[n] == k);
                }
            }
            assert forall|k: Seq<char>| #[trigger] map.has(k) implies map.at(k)@ == (if exists|j: int|
                0 <= j < n + 1 && (#[trigger] given.keys()[j]) == k {
                b[k]
            } else {
                a[k]
            }) by {
                if k == k0 {
                    assert(given.keys()[n] == k);
                } else {
                    assert(now.has(k));
                    assert(map.at(k) == now.at(k));
                    if exists|j: int| 0 <= j < n + 1 && (#[trigger] given.keys()[j]) == k {
                        let j = choose|j: int|
                            0 <= j < n + 1 && (#[trigger] given.keys()[j]) == k;
                        assert(j < n);
                    }
                }
            }
        }
    }
    proof {
        assert forall|k: Seq<char>| b.contains_key(k) <==> exists|j: int|
            0 <= j < raw.len() && (#[trigger] given.keys()[j]) == k by {
            if b.contains_key(k) {
                let j = given.keys().index_of(k);
                assert(given.keys()[j] == k);
            }
            if exists|j: int| 0 <= j < raw.len() && (#[trigger] given.keys()[j]) == k {
                let j = choose|j: int| 0 <= j < raw.len() && (#[trigger] given.keys()[j]) == k;
                given.lemma_at(j);
            }
        }
        assert(target_map(*map) =~= a.union_prefer_right(b));
    }
}

impl LazyRegistration {
    /// All maps are in order.
    pub open spec fn wf(&self) -> bool {
        &&& self.event2pkgid.wf()
        &&& self.cmd2pkgid.wf()
        &&& self.ft2pkgid.wf()
        &&& self.func2pkgid.wf()
        &&& self.luam2pkgid.wf()
        &&& self.source_name2pkgid.wf()
        &&& self.source_target2pkgid.wf()
        &&& key_map_wf(self.keypattern2pkgid)
        &&& forall|i: int|
            0 <= i < self.pkgid2scripts@.len() ==> (#[trigger] self.pkgid2scripts@[i]).script.wf()
    }

    /// A registration of nothing.
    pub fn new() -> (r: LazyRegistration)
        ensures
            r.wf(),
            r@ == no_registration(),
    {
        let r = LazyRegistration {
            pkgid2scripts: Vec::new(),
            event2pkgid: SortedMap::new(),
            cmd2pkgid: SortedMap::new(),
            ft2pkgid: SortedMap::new(),
            func2pkgid: SortedMap::new(),
            luam2pkgid: SortedMap::new(),
            source_name2pkgid: SortedMap::new(),
            source_target2pkgid: SortedMap::new(),
            keypattern2pkgid: SortedMap::new(),
        };
        proof {
            assert(r@.scripts =~= Seq::<ScriptsItem>::empty());
            assert(r@.events =~= Map::<Seq<char>, Seq<Seq<char>>>::empty());
            assert(r@.cmds =~= Map::<Seq<char>, Seq<Seq<char>>>::empty());
            assert(r@.fts =~= Map::<Seq<char>, Seq<Seq<char>>>::empty());
            assert(r@.funcs =~= Map::<Seq<char>, Seq<Seq<char>>>::empty());
            assert(r@.luams =~= Map::<Seq<char>, Seq<Seq<char>>>::empty());
            assert(r@.sources =~= Map::<Seq<char>, Seq<Seq<char>>>::empty());
            assert(r@.targets =~= Map::<Seq<char>, Seq<char>>::empty());
            assert(r@.keys =~= Map::<Option<char>, Map<Seq<char>, Seq<Seq<char>>>>::empty());
        }
        r
    }

    /// Whether nothing is registered.  A mode without mappings counts for nothing.
    pub fn is_empty(&self) -> (empty: bool)
        requires
            self.wf(),
        ensures
            empty == registers_nothing(self@),
    {
        proof {
            lemma_no_triggers(self.event2pkgid);
            lemma_no_triggers(self.cmd2pkgid);
            lemma_no_triggers(self.ft2pkgid);
            lemma_no_triggers(self.func2pkgid);
            lemma_no_triggers(self.luam2pkgid);
            lemma_no_triggers(self.source_name2pkgid);
            lemma_no_targets(self.source_target2pkgid);
        }
        let maps = self.event2pkgid.is_empty() && self.pkgid2scripts.len() == 0
            && self.cmd2pkgid.is_empty() && self.ft2pkgid.is_empty() && self.func2pkgid.is_empty()
            && self.luam2pkgid.is_empty() && self.source_name2pkgid.is_empty()
            && self.source_target2pkgid.is_empty();
        if !maps {
            return false;
        }
        let n: usize = self.keypattern2pkgid.len();
        let mut i: usize = 0;
        while i < n
            invariant
                i <= n,
                n == self.keypattern2pkgid.keys().len(),
                self.wf(),
                forall|j: int|
                    0 <= j < i ==> (#[trigger] self.keypattern2pkgid.values()[j]).keys().len() == 0,
            decreases n - i,
        {
            let inner = self.keypattern2pkgid.value_at(i);
            if !inner.is_empty() {
                proof {
                    let m = self.keypattern2pkgid.keys()[i as int];
                    self.keypattern2pkgid.lemma_at(i as int);
                    let k = inner.keys()[0];
                    inner.lemma_at(0);
                    assert(self@.keys[m].contains_key(k));
                    assert(self@.keys.contains_key(m));
                }
                return false;
            }
            i = i + 1;
        }
        proof {
            assert forall|m: Option<char>| #[trigger]
                self@.keys.contains_key(m) implies self@.keys[m] == no_triggers() by {
                let j = self.keypattern2pkgid.keys().index_of(m);
                assert(self.keypattern2pkgid.keys()[j] == m);
                assert(self.keypattern2pkgid.values()[j].keys().len() == 0);
                lemma_no_triggers(self.keypattern2pkgid.values()[j]);
            }
        }
        true
    }

    /// Adds another registration.
    pub fn add_assign(&mut self, other: LazyRegistration)
        requires
            old(self).wf(),
            other.wf(),
        ensures
            final(self).wf(),
            final(self)@ == both(old(self)@, other@),
    {
        let ghost a = self@;
        let ghost raw = self.pkgid2scripts@;
        let ghost b = other@;
        let LazyRegistration {
            pkgid2scripts,
            event2pkgid,
            cmd2pkgid,
            ft2pkgid,
            func2pkgid,
            luam2pkgid,
            source_name2pkgid,
            source_target2pkgid,
            keypattern2pkgid,
        } = other;
        append_triggers(&mut self.event2pkgid, event2pkgid);
        let mut scripts = pkgid2scripts;
        let ghost added = scripts@;
        self.pkgid2scripts.append(&mut scripts);
        append_triggers(&mut self.cmd2pkgid, cmd2pkgid);
        append_triggers(&mut self.ft2pkgid, ft2pkgid);
        append_triggers(&mut self.func2pkgid, func2pkgid);
        append_triggers(&mut self.luam2pkgid, luam2pkgid);
        append_triggers(&mut self.source_name2pkgid, source_name2pkgid);
        extend_targets(&mut self.source_target2pkgid, source_target2pkgid);
        append_all_keys(&mut self.keypattern2pkgid, keypattern2pkgid);
        dedup_trigger_ids(&mut self.event2pkgid);
        dedup_trigger_ids(&mut self.cmd2pkgid);
        dedup_trigger_ids(&mut self.ft2pkgid);
        dedup_trigger_ids(&mut self.func2pkgid);
        dedup_trigger_ids(&mut self.luam2pkgid);
        dedup_trigger_ids(&mut self.source_name2pkgid);
        dedup_all_keys(&mut self.keypattern2pkgid);
        proof {
            assert(script_items(self.pkgid2scripts@) =~= script_items(raw) + script_items(added));
            assert forall|i: int| 0 <= i < self.pkgid2scripts@.len() implies (
            #[trigger] self.pkgid2scripts@[i]).script.wf() by {
                if i < raw.len() {
                    assert(self.pkgid2scripts@[i] == raw[i]);
                } else {
                    assert(self.pkgid2scripts@[i] == added[i - raw.len()]);
                }
            }
        }
    }

    /// All registrations in one.
    pub fn sum(list: Vec<LazyRegistration>) -> (r: LazyRegistration)
        requires
            forall|i: int| 0 <= i < list@.len() ==> (#[trigger] list@[i]).wf(),
        ensures
            r.wf(),
            r@ == all_of(list@.map_values(|l: LazyRegistration| l@)),
    {
        let ghost raw = list@;
        let ghost models = raw.map_values(|l: LazyRegistration| l@);
        let mut r = LazyRegistration::new();
        assert(models.take(0) =~= Seq::<Registration>::empty());
        for next in it: list
            invariant
                it.seq() == raw,
                models == raw.map_values(|l: LazyRegistration| l@),
                forall|i: int| 0 <= i < raw.len() ==> (#[trigger] raw[i]).wf(),
                r.wf(),
                r@ == all_of(models.take(it.index() as int)),
        {
            let ghost n = it.index() as int;
            proof {
                assert(raw[n].wf());
                assert(models.take(n + 1).drop_last() =~= models.take(n));
                assert(models.take(n + 1).last() == next@);
            }
            r.add_assign(next);
        }
        assert(models.take(models.len() as int) =~= models);
        r
    }
}

proof fn lemma_no_triggers(m: SortedMap<String, Vec<String>>)
    ensures
        (m.keys().len() == 0) == (trigger_map(m) == no_triggers()),
{
    if m.keys().len() > 0 {
        assert(m.keys().contains(m.keys()[0]));
        assert(trigger_map(m).contains_key(m.keys()[0]));
    } else {
        assert(trigger_map(m) =~= no_triggers());
    }
}

proof fn lemma_no_targets(m: SortedMap<String, String>)
    ensures
        (m.keys().len() == 0) == (target_map(m) == Map::<Seq<char>, Seq<char>>::empty()),
{
    if m.keys().len() > 0 {
        assert(m.keys().contains(m.keys()[0]));
        assert(target_map(m).contains_key(m.keys()[0]));
    } else {
        assert(target_map(m) =~= Map::empty());
    }
}

} // verus!
