//! Strings as sequences of characters.

use vstd::prelude::*;

pub mod laws;

verus! {

/// The texts of a list of strings.
pub open spec fn strings(list: Seq<String>) -> Seq<Seq<char>> {
    list.map_values(|s: String| s@)
}

/// The texts of a list of string slices.
pub open spec fn slices(list: Seq<&str>) -> Seq<Seq<char>> {
    list.map_values(|s: &str| s@)
}

/// The text of an optional string slice.
pub open spec fn optional_slice(s: Option<&str>) -> Option<Seq<char>> {
    match s {
        Some(s) => Some(s@),
        None => None,
    }
}

/// The text of an optional string.
pub open spec fn optional_string(s: Option<String>) -> Option<Seq<char>> {
    match s {
        Some(s) => Some(s@),
        None => None,
    }
}

/// `String::push`: the character is added at the end.
#[verifier::external_body]
pub(crate) fn push_char(s: &mut String, c: char)
    ensures
        final(s)@ == old(s)@.push(c),
{
    s.push(c)
}

/// The characters of a string.
pub(crate) fn chars_of(s: &str) -> (chars: Vec<char>)
    ensures
        chars@ == s@,
{
    let mut chars: Vec<char> = Vec::new();
    for c in it: s.chars()
        invariant
            it.seq() == s@,
            chars@ == s@.take(it.index() as int),
    {
        chars.push(c);
        assert(s@.take(it.index() as int + 1) =~= s@.take(it.index() as int).push(c));
    }
    assert(s@.take(s@.len() as int) =~= s@);
    chars
}

/// The string made of the characters from `from` up to `to`.
pub(crate) fn text_between(chars: &Vec<char>, from: usize, to: usize) -> (s: String)
    requires
        from <= to <= chars@.len(),
    ensures
        s@ == chars@.subrange(from as int, to as int),
{
    let mut s = String::new();
    let mut i: usize = from;
    while i < to
        invariant
            from <= i <= to <= chars@.len(),
            s@ == chars@.subrange(from as int, i as int),
        decreases to - i,
    {
        push_char(&mut s, chars[i]);
        i = i + 1;
        assert(chars@.subrange(from as int, i as int) =~= chars@.subrange(
            from as int,
            i as int - 1,
        ).push(chars@[i as int - 1]));
    }
    s
}

/// The list with `separator` between its members.
pub open spec fn joined(list: Seq<Seq<char>>, separator: Seq<char>) -> Seq<char>
    decreases list.len(),
{
    if list.len() == 0 {
        Seq::empty()
    } else if list.len() == 1 {
        list[0]
    } else {
        joined(list.drop_last(), separator) + separator + list.last()
    }
}

/// The list with `separator` between its members.
pub(crate) fn join(list: &Vec<String>, separator: &str) -> (s: String)
    ensures
        s@ == joined(strings(list@), separator@),
{
    let mut s = String::new();
    let mut i: usize = 0;
    let ghost all = strings(list@);
    while i < list.len()
        invariant
            i <= list@.len(),
            all == strings(list@),
            s@ == joined(all.take(i as int), separator@),
        decreases list@.len() - i,
    {
        if i > 0 {
            s.append(separator);
        }
        s.append(list[i].as_str());
        proof {
            assert(all.take(i as int + 1).drop_last() =~= all.take(i as int));
            assert(all[i as int] == list@[i as int]@);
            if i == 0 {
                assert(all.take(0) =~= Seq::<Seq<char>>::empty());
                assert(s@ =~= all[0]);
            }
        }
        i = i + 1;
    }
    assert(all.take(i as int) =~= all);
    s
}

/// The text that `{:?}` writes for a string.
pub uninterp spec fn quoted_text(s: Seq<char>) -> Seq<char>;

/// `{:?}` of `std::fmt` on a string: the string in quotes, with what needs it escaped.
/// The result depends on the string alone.
#[verifier::external_body]
pub(crate) fn quoted(s: &str) -> (text: String)
    ensures
        text@ == quoted_text(s@),
{
    format!("{:?}", s)
}

/// The list in brackets, each member quoted.
pub open spec fn quoted_list_text(list: Seq<Seq<char>>) -> Seq<char> {
    "["@ + joined(list.map_values(|s: Seq<char>| quoted_text(s)), ", "@) + "]"@
}

/// The list in brackets, each member quoted.
pub(crate) fn quoted_list(list: &Vec<String>) -> (text: String)
    ensures
        text@ == quoted_list_text(strings(list@)),
{
    let mut members: Vec<String> = Vec::new();
    let mut i: usize = 0;
    let ghost wanted = strings(list@).map_values(|s: Seq<char>| quoted_text(s));
    while i < list.len()
        invariant
            i <= list@.len(),
            wanted == strings(list@).map_values(|s: Seq<char>| quoted_text(s)),
            strings(members@) == wanted.take(i as int),
        decreases list@.len() - i,
    {
        let ghost before = members@;
        members.push(quoted(list[i].as_str()));
        assert(strings(members@) =~= strings(before).push(wanted[i as int]));
        assert(wanted.take(i as int + 1) =~= wanted.take(i as int).push(wanted[i as int]));
        i = i + 1;
    }
    assert(wanted.take(i as int) =~= wanted);
    let mut text = String::from_str("[");
    let inner = join(&members, ", ");
    text.append(inner.as_str());
    text.append("]");
    text
}

/// The value of a decimal digit.
pub open spec fn digit(d: int) -> char {
    (('0' as int) + d) as char
}

/// A number in decimal, without leading zeros.
pub open spec fn decimal_text(n: nat) -> Seq<char>
    decreases n,
{
    if n < 10 {
        seq![digit(n as int)]
    } else {
        decimal_text(n / 10).push(digit((n % 10) as int))
    }
}

/// A number in decimal.
pub(crate) fn decimal(n: usize) -> (text: String)
    ensures
        text@ == decimal_text(n as nat),
    decreases n,
{
    if n < 10 {
        let mut text = String::new();
        push_char(&mut text, digit_char(n));
        assert(text@ =~= seq![digit(n as int)]);
        text
    } else {
        let mut text = decimal(n / 10);
        push_char(&mut text, digit_char(n % 10));
        text
    }
}

fn digit_char(d: usize) -> (c: char)
    requires
        d < 10,
    ensures
        c == digit(d as int),
{
    let code: u8 = 48u8 + (d as u8);
    code as char
}

/// The pieces of a text between separators; one more than there are separators.
pub open spec fn split_text(s: Seq<char>, separator: char) -> Seq<Seq<char>>
    decreases s.len(),
{
    if s.len() == 0 {
        seq![Seq::empty()]
    } else {
        let before = split_text(s.drop_last(), separator);
        if s.last() == separator {
            before.push(Seq::empty())
        } else {
            before.update(before.len() - 1, before.last().push(s.last()))
        }
    }
}

/// The pieces of a text between separators.
pub(crate) fn split(s: &str, separator: char) -> (pieces: Vec<String>)
    ensures
        strings(pieces@) == split_text(s@, separator),
{
    let chars = chars_of(s);
    let mut pieces: Vec<String> = Vec::new();
    let mut current = String::new();
    let mut i: usize = 0;
    proof {
        assert(chars@.take(0) =~= Seq::<char>::empty());
        assert(strings(pieces@).push(current@) =~= seq![Seq::<char>::empty()]);
    }
    while i < chars.len()
        invariant
            i <= chars@.len(),
            strings(pieces@).push(current@) == split_text(chars@.take(i as int), separator),
        decreases chars@.len() - i,
    {
        let c: char = chars[i];
        let ghost taken = chars@.take(i as int);
        let ghost pieces0 = strings(pieces@);
        let ghost current0 = current@;
        proof {
            assert(chars@.take(i as int + 1).drop_last() =~= taken);
            assert(chars@.take(i as int + 1).last() == c);
        }
        if c == separator {
            let ghost raw = pieces@;
            pieces.push(current);
            current = String::new();
            proof {
                assert(strings(pieces@) =~= pieces0.push(current0));
                assert(strings(pieces@).push(current@) =~= pieces0.push(current0).push(
                    Seq::<char>::empty(),
                ));
            }
        } else {
            push_char(&mut current, c);
            proof {
                let before = pieces0.push(current0);
                assert(strings(pieces@).push(current@) =~= before.update(
                    before.len() - 1,
                    before.last().push(c),
                ));
            }
        }
        i = i + 1;
    }
    let ghost before = strings(pieces@);
    let ghost last = current@;
    pieces.push(current);
    assert(chars@.take(i as int) =~= chars@);
    assert(strings(pieces@) =~= before.push(last));
    pieces
}

/// Whether a text begins with another.
pub(crate) fn starts_with(s: &str, prefix: &str) -> (is: bool)
    ensures
        is == prefix@.is_prefix_of(s@),
{
    let a = chars_of(prefix);
    let b = chars_of(s);
    if a.len() > b.len() {
        return false;
    }
    let mut i: usize = 0;
    while i < a.len()
        invariant
            i <= a@.len(),
            a@ == prefix@,
            b@ == s@,
            a@.len() <= b@.len(),
            forall|k: int| 0 <= k < i ==> #[trigger] a@[k] == b@[k],
        decreases a@.len() - i,
    {
        if a[i] != b[i] {
            proof {
                if prefix@.is_prefix_of(s@) {
                    assert(a@[i as int] == s@.subrange(0, a@.len() as int)[i as int]);
                }
            }
            return false;
        }
        i = i + 1;
    }
    assert(prefix@ =~= s@.subrange(0, a@.len() as int));
    true
}

/// Whether a text ends with another.
pub(crate) fn ends_with(s: &str, suffix: &str) -> (is: bool)
    ensures
        is == suffix@.is_suffix_of(s@),
{
    let a = chars_of(suffix);
    let b = chars_of(s);
    if a.len() > b.len() {
        return false;
    }
    let skip: usize = b.len() - a.len();
    let mut i: usize = 0;
    while i < a.len()
        invariant
            i <= a@.len(),
            a@ == suffix@,
            b@ == s@,
            skip + a.len() == b.len(),
            forall|k: int| 0 <= k < i ==> #[trigger] a@[k] == b@[skip + k],
        decreases a@.len() - i,
    {
        if a[i] != b[skip + i] {
            proof {
                if suffix@.is_suffix_of(s@) {
                    assert(a@[i as int] == s@.subrange(skip as int, b@.len() as int)[i as int]);
                }
            }
            return false;
        }
        i = i + 1;
    }
    assert(suffix@ =~= s@.subrange(skip as int, b@.len() as int));
    true
}

/// Whether two texts are the same.
pub(crate) fn same(a: &str, b: &str) -> (same: bool)
    ensures
        same == (a@ == b@),
{
    let x = chars_of(a);
    let y = chars_of(b);
    if x.len() != y.len() {
        return false;
    }
    let mut i: usize = 0;
    while i < x.len()
        invariant
            i <= x@.len(),
            x@ == a@,
            y@ == b@,
            x@.len() == y@.len(),
            forall|k: int| 0 <= k < i ==> #[trigger] x@[k] == y@[k],
        decreases x@.len() - i,
    {
        if x[i] != y[i] {
            return false;
        }
        i = i + 1;
    }
    assert(a@ =~= b@);
    true
}

/// Whether a text has no characters.
pub(crate) fn is_empty(s: &str) -> (empty: bool)
    ensures
        empty == (s@.len() == 0),
{
    chars_of(s).len() == 0
}

/// White space, as Unicode has it.
pub open spec fn is_white(c: char) -> bool {
    let code = c as u32;
    ||| 0x9 <= code <= 0xd
    ||| code == 0x20
    ||| code == 0x85
    ||| code == 0xa0
    ||| code == 0x1680
    ||| 0x2000 <= code <= 0x200a
    ||| code == 0x2028
    ||| code == 0x2029
    ||| code == 0x202f
    ||| code == 0x205f
    ||| code == 0x3000
}

fn white(c: char) -> (is: bool)
    ensures
        is == is_white(c),
{
    let code: u32 = c as u32;
    (0x9 <= code && code <= 0xd) || code == 0x20 || code == 0x85 || code == 0xa0 || code == 0x1680
        || (0x2000 <= code && code <= 0x200a) || code == 0x2028 || code == 0x2029 || code == 0x202f
        || code == 0x205f || code == 0x3000
}

/// The text without white space at its end.
pub open spec fn trimmed_end(s: Seq<char>) -> Seq<char>
    decreases s.len(),
{
    if s.len() > 0 && is_white(s.last()) {
        trimmed_end(s.drop_last())
    } else {
        s
    }
}

/// The text without white space at its ends.
pub open spec fn trimmed(s: Seq<char>) -> Seq<char>
    decreases s.len(),
{
    if s.len() > 0 && is_white(s[0]) {
        trimmed(s.skip(1))
    } else {
        trimmed_end(s)
    }
}

/// The text without white space at its ends.
pub(crate) fn trim(s: &str) -> (t: String)
    ensures
        t@ == trimmed(s@),
{
    let chars = chars_of(s);
    let mut from: usize = 0;
    assert(chars@.skip(0) =~= chars@);
    while from < chars.len() && white(chars[from])
        invariant
            from <= chars@.len(),
            trimmed(chars@.skip(from as int)) == trimmed(chars@),
        decreases chars@.len() - from,
    {
        assert(chars@.skip(from as int).skip(1) =~= chars@.skip(from as int + 1));
        from = from + 1;
    }
    let ghost rest = chars@.skip(from as int);
    let mut to: usize = chars.len();
    assert(chars@.subrange(from as int, to as int) =~= rest);
    while to > from && white(chars[to - 1])
        invariant
            from <= to <= chars@.len(),
            trimmed_end(chars@.subrange(from as int, to as int)) == trimmed_end(rest),
        decreases to,
    {
        assert(chars@.subrange(from as int, to as int).drop_last() =~= chars@.subrange(
            from as int,
            to as int - 1,
        ));
        to = to - 1;
    }
    text_between(&chars, from, to)
}

/// The text with a character in place of another.
pub open spec fn replaced(s: Seq<char>, from: char, to: char) -> Seq<char> {
    s.map_values(
        |c: char|
            if c == from {
                to
            } else {
                c
            },
    )
}

/// The text with a character in place of another.
pub(crate) fn replace_char(s: &str, from: char, to: char) -> (t: String)
    ensures
        t@ == replaced(s@, from, to),
{
    let chars = chars_of(s);
    let ghost wanted = replaced(s@, from, to);
    let mut t = String::new();
    let mut i: usize = 0;
    while i < chars.len()
        invariant
            i <= chars@.len(),
            chars@ == s@,
            wanted == replaced(s@, from, to),
            t@ == wanted.take(i as int),
        decreases chars@.len() - i,
    {
        if chars[i] == from {
            push_char(&mut t, to);
        } else {
            push_char(&mut t, chars[i]);
        }
        assert(wanted.take(i as int + 1) =~= wanted.take(i as int).push(wanted[i as int]));
        i = i + 1;
    }
    assert(wanted.take(i as int) =~= wanted);
    t
}

/// A number of spaces.
pub open spec fn spaces_text(n: nat) -> Seq<char> {
    Seq::new(n, |i: int| ' ')
}

/// A number of spaces.
pub(crate) fn spaces(n: usize) -> (s: String)
    ensures
        s@ == spaces_text(n as nat),
{
    let mut s = String::new();
    let mut i: usize = 0;
    while i < n
        invariant
            i <= n,
            s@ == spaces_text(i as nat),
        decreases n - i,
    {
        push_char(&mut s, ' ');
        i = i + 1;
        assert(s@ =~= spaces_text(i as nat));
    }
    s
}

/// The number of columns that a text takes on a terminal.
pub uninterp spec fn width_of(s: Seq<char>) -> usize;

/// `unicode_width::UnicodeWidthStr::width` on a string: the number of columns that it takes on a
/// terminal.  The result depends on the string alone.
#[verifier::external_body]
pub(crate) fn display_width(s: &str) -> (n: usize)
    ensures
        n == width_of(s@),
{
    unicode_width::UnicodeWidthStr::width(s)
}

/// How many bytes the encoding of a character takes.
pub open spec fn char_width(c: char) -> nat {
    vstd::utf8::encode_scalar(c as u32).len()
}

/// How many characters the first `n` bytes of a text are; nothing if these bytes end inside a
/// character or behind the text.
pub open spec fn chars_before(s: Seq<char>, n: nat) -> Option<nat>
    decreases s.len(),
{
    if n == 0 {
        Some(0)
    } else if s.len() == 0 || n < char_width(s[0]) {
        None
    } else {
        match chars_before(s.skip(1), (n - char_width(s[0])) as nat) {
            Some(i) => Some(i + 1),
            None => None,
        }
    }
}

/// The part of a text from one byte to another; nothing unless both lie between characters.
pub open spec fn slice_text(s: Seq<char>, from: nat, to: nat) -> Option<Seq<char>> {
    match (chars_before(s, from), chars_before(s, to)) {
        (Some(i), Some(j)) => if i <= j {
            Some(s.subrange(i as int, j as int))
        } else {
            None
        },
        _ => None,
    }
}

proof fn lemma_encode_parts(a: Seq<char>, b: Seq<char>)
    ensures
        vstd::utf8::encode_utf8(a + b) == vstd::utf8::encode_utf8(a) + vstd::utf8::encode_utf8(b),
    decreases a.len(),
{
    let all = vstd::utf8::encode_utf8(a) + vstd::utf8::encode_utf8(b);
    if a.len() == 0 {
        assert(a + b =~= b);
        assert(all =~= vstd::utf8::encode_utf8(b));
    } else {
        assert((a + b).drop_first() =~= a.drop_first() + b);
        lemma_encode_parts(a.drop_first(), b);
        assert(vstd::utf8::encode_utf8(a + b) =~= all);
    }
}

proof fn lemma_chars_before(s: Seq<char>, n: nat)
    ensures
        chars_before(s, n) matches Some(i) ==> i <= s.len() && vstd::utf8::encode_utf8(
            s.take(i as int),
        ).len() == n,
    decreases s.len(),
{
    if n == 0 {
        assert(s.take(0) =~= Seq::<char>::empty());
    } else if s.len() > 0 && n >= char_width(s[0]) {
        lemma_chars_before(s.skip(1), (n - char_width(s[0])) as nat);
        if let Some(i) = chars_before(s, n) {
            assert(s.take(i as int).drop_first() =~= s.skip(1).take(i - 1));
        }
    }
}

/// A part of a text is encoded in those bytes of the text's encoding.
pub proof fn law_slice_bytes(s: Seq<char>, from: nat, to: nat)
    requires
        slice_text(s, from, to) is Some,
    ensures
        from <= to <= vstd::utf8::encode_utf8(s).len(),
        vstd::utf8::encode_utf8(slice_text(s, from, to)->0) == vstd::utf8::encode_utf8(
            s,
        ).subrange(from as int, to as int),
{
    lemma_chars_before(s, from);
    lemma_chars_before(s, to);
    let i = chars_before(s, from)->0 as int;
    let j = chars_before(s, to)->0 as int;
    let part = s.subrange(i, j);
    assert(s.take(i) + part =~= s.take(j));
    assert(s.take(j) + s.skip(j) =~= s);
    lemma_encode_parts(s.take(i), part);
    lemma_encode_parts(s.take(j), s.skip(j));
    assert(vstd::utf8::encode_utf8(part) =~= vstd::utf8::encode_utf8(s).subrange(
        from as int,
        to as int,
    ));
}

fn width(c: char) -> (n: usize)
    ensures
        n == char_width(c),
        1 <= n <= 4,
{
    proof {
        vstd::utf8::char_is_scalar(c);
    }
    let code: u32 = c as u32;
    if code < 0x80 {
        1
    } else if code < 0x800 {
        2
    } else if code < 0x10000 {
        3
    } else {
        4
    }
}

/// How many characters the first `n` bytes of a text are.
fn count_before(chars: &Vec<char>, n: usize) -> (found: Option<usize>)
    ensures
        match found {
            Some(i) => chars_before(chars@, n as nat) == Some(i as nat) && i <= chars@.len(),
            None => chars_before(chars@, n as nat) is None,
        },
{
    let mut left: usize = n;
    let mut i: usize = 0;
    assert(chars@.skip(0) =~= chars@);
    while left > 0
        invariant
            i <= chars@.len(),
            match chars_before(chars@.skip(i as int), left as nat) {
                Some(k) => chars_before(chars@, n as nat) == Some(i as nat + k),
                None => chars_before(chars@, n as nat) is None,
            },
        decreases left,
    {
        if i >= chars.len() {
            return None;
        }
        assert(chars@.skip(i as int)[0] == chars@[i as int]);
        assert(chars@.skip(i as int).skip(1) =~= chars@.skip(i as int + 1));
        let w: usize = width(chars[i]);
        if left < w {
            return None;
        }
        left = left - w;
        i = i + 1;
    }
    Some(i)
}

/// The part of a text from one byte to another; nothing unless both lie between characters.
pub(crate) fn slice(s: &str, from: usize, to: usize) -> (part: Option<String>)
    ensures
        optional_string(part) == slice_text(s@, from as nat, to as nat),
{
    let chars = chars_of(s);
    match (count_before(&chars, from), count_before(&chars, to)) {
        (Some(i), Some(j)) => if i <= j {
            Some(text_between(&chars, i, j))
        } else {
            None
        },
        _ => None,
    }
}

} // verus!
