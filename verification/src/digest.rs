//! Content digests, and the codes that are digested.
//!
//! A value is digested by way of a byte code from which it can be read back: no code is the
//! beginning of another, so different values never share a code.

use vstd::prelude::*;
use vstd::bytes::{u128_to_le_bytes, u64_to_le_bytes};

verus! {

/// The 128-bit XXH3 digest of a byte sequence.
pub uninterp spec fn xxh3_digest(bytes: Seq<u8>) -> u128;

/// `xxhash_rust::xxh3::xxh3_128`: the digest with the default secret and no seed.  It depends on
/// the bytes alone.
#[verifier::external_body]
pub(crate) fn xxh3_128(bytes: &Vec<u8>) -> (digest: u128)
    ensures
        digest == xxh3_digest(bytes@),
{
    xxhash_rust::xxh3::xxh3_128(bytes)
}

/// A hexadecimal digit.
pub open spec fn hex_digit(d: int) -> char {
    if d < 10 {
        (('0' as int) + d) as char
    } else {
        (('a' as int) + d - 10) as char
    }
}

/// Two lower-case hexadecimal digits per byte.
pub open spec fn hex_text(bytes: Seq<u8>) -> Seq<char>
    decreases bytes.len(),
{
    if bytes.len() == 0 {
        Seq::empty()
    } else {
        let b = bytes.last() as int;
        hex_text(bytes.drop_last()).push(hex_digit(b / 16)).push(hex_digit(b % 16))
    }
}

/// A digest as text: its bytes, least significant first, in hexadecimal.
pub open spec fn digest_text(digest: u128) -> Seq<char> {
    hex_text(vstd::bytes::spec_u128_to_le_bytes(digest))
}

/// The character is a hexadecimal digit as digests are written.
pub open spec fn is_hex(c: char) -> bool {
    ('0' as int <= c as int <= '9' as int) || ('a' as int <= c as int <= 'f' as int)
}

/// A digest is written as 32 hexadecimal digits.
pub proof fn law_digest_text(digest: u128)
    ensures
        digest_text(digest).len() == 32,
        forall|i: int| 0 <= i < 32 ==> is_hex(#[trigger] digest_text(digest)[i]),
{
    vstd::bytes::lemma_auto_spec_u128_to_from_le_bytes();
    lemma_hex_text(vstd::bytes::spec_u128_to_le_bytes(digest));
}

proof fn lemma_hex_text(bytes: Seq<u8>)
    ensures
        hex_text(bytes).len() == 2 * bytes.len(),
        forall|i: int| 0 <= i < hex_text(bytes).len() ==> is_hex(#[trigger] hex_text(bytes)[i]),
    decreases bytes.len(),
{
    if bytes.len() > 0 {
        lemma_hex_text(bytes.drop_last());
    }
}

/// Different digests are written differently.
pub proof fn law_digest_text_injective(a: u128, b: u128)
    requires
        digest_text(a) == digest_text(b),
    ensures
        a == b,
{
    vstd::bytes::lemma_auto_spec_u128_to_from_le_bytes();
    let x = vstd::bytes::spec_u128_to_le_bytes(a);
    let y = vstd::bytes::spec_u128_to_le_bytes(b);
    assert(x.len() == 16 && y.len() == 16);
    lemma_hex_injective(x, y);
    assert(vstd::bytes::spec_u128_from_le_bytes(x) == a);
    assert(vstd::bytes::spec_u128_from_le_bytes(y) == b);
}

proof fn lemma_hex_digit_injective(d: int, e: int)
    requires
        0 <= d < 16,
        0 <= e < 16,
        hex_digit(d) == hex_digit(e),
    ensures
        d == e,
{
    assert(hex_digit(d) as int == if d < 10 { 48 + d } else { 87 + d });
    assert(hex_digit(e) as int == if e < 10 { 48 + e } else { 87 + e });
}

proof fn lemma_hex_injective(x: Seq<u8>, y: Seq<u8>)
    requires
        x.len() == y.len(),
        hex_text(x) == hex_text(y),
    ensures
        x == y,
    decreases x.len(),
{
    if x.len() > 0 {
        let b = x.last() as int;
        let c = y.last() as int;
        let hx = hex_text(x.drop_last());
        let hy = hex_text(y.drop_last());
        let tx = hx.push(hex_digit(b / 16)).push(hex_digit(b % 16));
        let ty = hy.push(hex_digit(c / 16)).push(hex_digit(c % 16));
        assert(tx == ty);
        assert(tx.last() == ty.last());
        assert(tx.drop_last() =~= hx.push(hex_digit(b / 16)));
        assert(ty.drop_last() =~= hy.push(hex_digit(c / 16)));
        assert(tx.drop_last().last() == ty.drop_last().last());
        assert(tx.drop_last().drop_last() =~= hx);
        assert(ty.drop_last().drop_last() =~= hy);
        lemma_hex_digit_injective(b / 16, c / 16);
        lemma_hex_digit_injective(b % 16, c % 16);
        assert(b == c);
        lemma_hex_injective(x.drop_last(), y.drop_last());
        assert(x =~= x.drop_last().push(x.last()));
        assert(y =~= y.drop_last().push(y.last()));
    } else {
        assert(x =~= y);
    }
}

fn hex_char(d: u8) -> (c: char)
    requires
        d < 16,
    ensures
        c == hex_digit(d as int),
{
    if d < 10 {
        (48u8 + d) as char
    } else {
        (87u8 + d) as char
    }
}

/// A digest as text.
pub fn digest_string(digest: u128) -> (s: String)
    ensures
        s@ == digest_text(digest),
{
    let bytes = u128_to_le_bytes(digest);
    let mut s = String::new();
    let mut i: usize = 0;
    assert(bytes@.take(0) =~= Seq::<u8>::empty());
    while i < bytes.len()
        invariant
            i <= bytes@.len(),
            s@ == hex_text(bytes@.take(i as int)),
        decreases bytes@.len() - i,
    {
        let b: u8 = bytes[i];
        crate::text::push_char(&mut s, hex_char(b / 16));
        crate::text::push_char(&mut s, hex_char(b % 16));
        assert(bytes@.take(i as int + 1).drop_last() =~= bytes@.take(i as int));
        i = i + 1;
    }
    assert(bytes@.take(i as int) =~= bytes@);
    s
}

/// Codes from which the coded value, and where its code ends, can be read back.
#[verifier::opaque]
pub open spec fn readable<T>(code: spec_fn(T) -> Seq<u8>) -> bool {
    forall|a: T, b: T, r: Seq<u8>, s: Seq<u8>| #[trigger] (code(a) + r) == #[trigger] (code(b) + s)
        ==> a == b && r == s
}

/// Reading a code back.
pub proof fn lemma_read<T>(code: spec_fn(T) -> Seq<u8>, a: T, b: T, r: Seq<u8>, s: Seq<u8>)
    requires
        readable(code),
        code(a) + r == code(b) + s,
    ensures
        a == b,
        r == s,
{
    reveal(readable);
}

/// Readable codes are different for different values.
pub proof fn lemma_readable_injective<T>(code: spec_fn(T) -> Seq<u8>, a: T, b: T)
    requires
        readable(code),
        code(a) == code(b),
    ensures
        a == b,
{
    let none = Seq::<u8>::empty();
    lemma_read(code, a, b, none, none);
}

/// A truth value.
pub open spec fn bool_code(b: bool) -> Seq<u8> {
    seq![if b {
        1u8
    } else {
        0u8
    }]
}

/// A number.
pub open spec fn number_code(n: u64) -> Seq<u8> {
    vstd::bytes::spec_u64_to_le_bytes(n)
}

/// A digest.
pub open spec fn wide_code(n: u128) -> Seq<u8> {
    vstd::bytes::spec_u128_to_le_bytes(n)
}

/// A list: a one before each member, a zero at the end.
pub open spec fn list_code<T>(list: Seq<T>, code: spec_fn(T) -> Seq<u8>) -> Seq<u8>
    decreases list.len(),
{
    if list.len() == 0 {
        seq![0u8]
    } else {
        seq![1u8] + code(list[0]) + list_code(list.drop_first(), code)
    }
}

/// A value that may be missing.
pub open spec fn option_code<T>(value: Option<T>, code: spec_fn(T) -> Seq<u8>) -> Seq<u8> {
    match value {
        None => seq![0u8],
        Some(x) => seq![1u8] + code(x),
    }
}

/// A byte sequence.
pub open spec fn bytes_code(bytes: Seq<u8>) -> Seq<u8> {
    list_code(bytes, |b: u8| seq![b])
}

/// A text: the code of its UTF-8 bytes.
pub open spec fn text_code(s: Seq<char>) -> Seq<u8> {
    bytes_code(vstd::utf8::encode_utf8(s))
}

/// A list of texts.
pub open spec fn texts_code(list: Seq<Seq<char>>) -> Seq<u8> {
    list_code(list, |s: Seq<char>| text_code(s))
}

proof fn lemma_split(a: Seq<u8>, b: Seq<u8>, r: Seq<u8>, s: Seq<u8>)
    requires
        a.len() == b.len(),
        a + r == b + s,
    ensures
        a == b,
        r == s,
{
    assert(a =~= (a + r).take(a.len() as int));
    assert(b =~= (b + s).take(b.len() as int));
    assert(r =~= (a + r).skip(a.len() as int));
    assert(s =~= (b + s).skip(b.len() as int));
}

pub proof fn lemma_bool_code()
    ensures
        readable(|b: bool| bool_code(b)),
{
    reveal(readable);
    let code = |b: bool| bool_code(b);
    assert forall|a: bool, b: bool, r: Seq<u8>, s: Seq<u8>| #[trigger] (code(a) + r) == #[trigger] (code(
        b,
    ) + s) implies a == b && r == s by {
        lemma_split(bool_code(a), bool_code(b), r, s);
        assert(bool_code(a)[0] == bool_code(b)[0]);
    }
}

pub proof fn lemma_number_code()
    ensures
        readable(|n: u64| number_code(n)),
{
    reveal(readable);
    vstd::bytes::lemma_auto_spec_u64_to_from_le_bytes();
    let code = |n: u64| number_code(n);
    assert forall|a: u64, b: u64, r: Seq<u8>, s: Seq<u8>| #[trigger] (code(a) + r) == #[trigger] (code(b)
        + s) implies a == b && r == s by {
        assert(number_code(a).len() == 8 && number_code(b).len() == 8);
        lemma_split(number_code(a), number_code(b), r, s);
        assert(vstd::bytes::spec_u64_from_le_bytes(number_code(a)) == a);
        assert(vstd::bytes::spec_u64_from_le_bytes(number_code(b)) == b);
    }
}

pub proof fn lemma_wide_code()
    ensures
        readable(|n: u128| wide_code(n)),
{
    reveal(readable);
    vstd::bytes::lemma_auto_spec_u128_to_from_le_bytes();
    let code = |n: u128| wide_code(n);
    assert forall|a: u128, b: u128, r: Seq<u8>, s: Seq<u8>| #[trigger] (code(a) + r) == #[trigger] (code(
        b,
    ) + s) implies a == b && r == s by {
        assert(wide_code(a).len() == 16 && wide_code(b).len() == 16);
        lemma_split(wide_code(a), wide_code(b), r, s);
        assert(vstd::bytes::spec_u128_from_le_bytes(wide_code(a)) == a);
        assert(vstd::bytes::spec_u128_from_le_bytes(wide_code(b)) == b);
    }
}

proof fn lemma_list_step<T>(
    a: Seq<T>,
    b: Seq<T>,
    r: Seq<u8>,
    s: Seq<u8>,
    code: spec_fn(T) -> Seq<u8>,
)
    requires
        readable(code),
        list_code(a, code) + r == list_code(b, code) + s,
    ensures
        a == b,
        r == s,
    decreases a.len(),
{
    let x = list_code(a, code) + r;
    let y = list_code(b, code) + s;
    assert(x[0] == y[0]);
    assert(list_code(a, code)[0] == x[0]);
    assert(list_code(b, code)[0] == y[0]);
    if a.len() == 0 {
        assert(list_code(b, code)[0] == 0u8);
        assert(b.len() == 0);
        lemma_split(seq![0u8], seq![0u8], r, s);
        assert(a =~= b);
    } else {
        assert(b.len() > 0);
        let a1 = a.drop_first();
        let b1 = b.drop_first();
        let ra = list_code(a1, code) + r;
        let rb = list_code(b1, code) + s;
        assert(x =~= seq![1u8] + (code(a[0]) + ra));
        assert(y =~= seq![1u8] + (code(b[0]) + rb));
        lemma_split(seq![1u8], seq![1u8], code(a[0]) + ra, code(b[0]) + rb);
        lemma_read(code, a[0], b[0], ra, rb);
        lemma_list_step(a1, b1, r, s, code);
        assert(a =~= seq![a[0]] + a1);
        assert(b =~= seq![b[0]] + b1);
    }
}

pub proof fn lemma_list_code<T>(code: spec_fn(T) -> Seq<u8>)
    requires
        readable(code),
    ensures
        readable(|list: Seq<T>| list_code(list, code)),
{
    reveal(readable);
    let all = |list: Seq<T>| list_code(list, code);
    assert forall|a: Seq<T>, b: Seq<T>, r: Seq<u8>, s: Seq<u8>| #[trigger] (all(a) + r) == #[trigger] (all(
        b,
    ) + s) implies a == b && r == s by {
        lemma_list_step(a, b, r, s, code);
    }
}

pub proof fn lemma_option_code<T>(code: spec_fn(T) -> Seq<u8>)
    requires
        readable(code),
    ensures
        readable(|value: Option<T>| option_code(value, code)),
{
    reveal(readable);
    let all = |value: Option<T>| option_code(value, code);
    assert forall|a: Option<T>, b: Option<T>, r: Seq<u8>, s: Seq<u8>| #[trigger] (all(a) + r)
        == #[trigger] (all(b) + s) implies a == b && r == s by {
        let x = all(a) + r;
        let y = all(b) + s;
        assert(x[0] == y[0]);
        assert(all(a)[0] == x[0]);
        assert(all(b)[0] == y[0]);
        match (a, b) {
            (None, None) => {
                lemma_split(seq![0u8], seq![0u8], r, s);
            },
            (Some(p), Some(q)) => {
                assert(x =~= seq![1u8] + (code(p) + r));
                assert(y =~= seq![1u8] + (code(q) + s));
                lemma_split(seq![1u8], seq![1u8], code(p) + r, code(q) + s);
            },
            _ => {},
        }
    }
}

pub proof fn lemma_bytes_code()
    ensures
        readable(|bytes: Seq<u8>| bytes_code(bytes)),
{
    reveal(readable);
    let one = |b: u8| seq![b];
    assert forall|a: u8, b: u8, r: Seq<u8>, s: Seq<u8>| #[trigger] (one(a) + r) == #[trigger] (one(b)
        + s) implies a == b && r == s by {
        lemma_split(seq![a], seq![b], r, s);
        assert(seq![a][0] == seq![b][0]);
    }
    lemma_list_code(one);
    let all = |list: Seq<u8>| list_code(list, one);
    let wanted = |bytes: Seq<u8>| bytes_code(bytes);
    assert forall|a: Seq<u8>, b: Seq<u8>, r: Seq<u8>, s: Seq<u8>| #[trigger] (wanted(a) + r)
        == #[trigger] (wanted(b) + s) implies a == b && r == s by {
        assert(all(a) + r == all(b) + s);
    }
}

pub proof fn lemma_text_code()
    ensures
        readable(|s: Seq<char>| text_code(s)),
{
    reveal(readable);
    lemma_bytes_code();
    let bytes = |bytes: Seq<u8>| bytes_code(bytes);
    let code = |s: Seq<char>| text_code(s);
    assert forall|a: Seq<char>, b: Seq<char>, r: Seq<u8>, s: Seq<u8>| #[trigger] (code(a) + r)
        == #[trigger] (code(b) + s) implies a == b && r == s by {
        let x = vstd::utf8::encode_utf8(a);
        let y = vstd::utf8::encode_utf8(b);
        assert(bytes(x) + r == bytes(y) + s);
        assert(x == y);
        vstd::utf8::encode_utf8_decode_utf8(a);
        vstd::utf8::encode_utf8_decode_utf8(b);
    }
}

pub proof fn lemma_texts_code()
    ensures
        readable(|list: Seq<Seq<char>>| texts_code(list)),
{
    reveal(readable);
    lemma_text_code();
    let one = |s: Seq<char>| text_code(s);
    lemma_list_code(one);
    let all = |list: Seq<Seq<char>>| list_code(list, one);
    let wanted = |list: Seq<Seq<char>>| texts_code(list);
    assert forall|a: Seq<Seq<char>>, b: Seq<Seq<char>>, r: Seq<u8>, s: Seq<u8>| #[trigger] (wanted(a) + r)
        == #[trigger] (wanted(b) + s) implies a == b && r == s by {
        assert(all(a) + r == all(b) + s);
    }
}

/// Appends the code of a truth value.
pub(crate) fn push_bool(out: &mut Vec<u8>, b: bool)
    ensures
        final(out)@ == old(out)@ + bool_code(b),
{
    out.push(if b {
        1
    } else {
        0
    });
}

/// Appends a byte.
pub(crate) fn push_byte(out: &mut Vec<u8>, b: u8)
    ensures
        final(out)@ == old(out)@ + seq![b],
{
    out.push(b);
}

/// Appends bytes as they are.
pub(crate) fn push_raw(out: &mut Vec<u8>, bytes: &[u8])
    ensures
        final(out)@ == old(out)@ + bytes@,
{
    let mut i: usize = 0;
    let ghost before = out@;
    assert(before + bytes@.take(0) =~= before);
    while i < bytes.len()
        invariant
            i <= bytes@.len(),
            out@ == before + bytes@.take(i as int),
        decreases bytes@.len() - i,
    {
        out.push(bytes[i]);
        assert(bytes@.take(i as int + 1) =~= bytes@.take(i as int).push(bytes@[i as int]));
        assert(out@ =~= before + bytes@.take(i as int + 1));
        i = i + 1;
    }
    assert(bytes@.take(i as int) =~= bytes@);
}

/// Appends the code of a number.
pub(crate) fn push_number(out: &mut Vec<u8>, n: usize)
    ensures
        final(out)@ == old(out)@ + number_code(n as u64),
{
    let bytes = u64_to_le_bytes(n as u64);
    push_raw(out, bytes.as_slice());
}

/// Appends the code of a digest.
pub(crate) fn push_wide(out: &mut Vec<u8>, n: u128)
    ensures
        final(out)@ == old(out)@ + wide_code(n),
{
    let bytes = u128_to_le_bytes(n);
    push_raw(out, bytes.as_slice());
}

/// Appends the code of a byte sequence.
pub(crate) fn push_bytes(out: &mut Vec<u8>, bytes: &[u8])
    ensures
        final(out)@ == old(out)@ + bytes_code(bytes@),
{
    let mut i: usize = 0;
    let ghost before = out@;
    let ghost one = |b: u8| seq![b];
    assert(bytes@.skip(0) =~= bytes@);
    while i < bytes.len()
        invariant
            i <= bytes@.len(),
            one == |b: u8| seq![b],
            before + bytes_code(bytes@) == out@ + list_code(bytes@.skip(i as int), one),
        decreases bytes@.len() - i,
    {
        let ghost rest = bytes@.skip(i as int);
        let ghost step = out@;
        out.push(1);
        out.push(bytes[i]);
        proof {
            assert(rest.drop_first() =~= bytes@.skip(i as int + 1));
            assert(list_code(rest, one) == seq![1u8] + one(rest[0]) + list_code(
                rest.drop_first(),
                one,
            ));
            assert(out@ + list_code(bytes@.skip(i as int + 1), one) =~= step + list_code(rest, one));
        }
        i = i + 1;
    }
    out.push(0);
    assert(bytes@.skip(i as int).len() == 0);
    assert(out@ =~= before + bytes_code(bytes@));
}

/// Appends the code of a text.
pub(crate) fn push_text(out: &mut Vec<u8>, s: &str)
    ensures
        final(out)@ == old(out)@ + text_code(s@),
{
    push_bytes(out, s.as_bytes());
}

/// Appends the code of a list of texts.
pub(crate) fn push_texts(out: &mut Vec<u8>, list: &Vec<String>)
    ensures
        final(out)@ == old(out)@ + texts_code(crate::text::strings(list@)),
{
    let mut i: usize = 0;
    let ghost before = out@;
    let ghost all = crate::text::strings(list@);
    let ghost one = |s: Seq<char>| text_code(s);
    assert(all.skip(0) =~= all);
    while i < list.len()
        invariant
            i <= list@.len(),
            one == |s: Seq<char>| text_code(s),
            all == crate::text::strings(list@),
            before + texts_code(all) == out@ + list_code(all.skip(i as int), one),
        decreases list@.len() - i,
    {
        let ghost rest = all.skip(i as int);
        let ghost step = out@;
        out.push(1);
        push_text(out, list[i].as_str());
        proof {
            assert(rest[0] == list@[i as int]@);
            assert(rest.drop_first() =~= all.skip(i as int + 1));
            assert(list_code(rest, one) == seq![1u8] + one(rest[0]) + list_code(
                rest.drop_first(),
                one,
            ));
            assert(out@ + list_code(all.skip(i as int + 1), one) =~= step + list_code(rest, one));
        }
        i = i + 1;
    }
    out.push(0);
    assert(all.skip(i as int).len() == 0);
    assert(out@ =~= before + texts_code(all));
}

/// Whether two byte sequences are the same.
pub(crate) fn same_bytes(a: &Vec<u8>, b: &Vec<u8>) -> (same: bool)
    ensures
        same == (a@ == b@),
{
    if a.len() != b.len() {
        return false;
    }
    let mut i: usize = 0;
    while i < a.len()
        invariant
            i <= a@.len(),
            a@.len() == b@.len(),
            forall|k: int| 0 <= k < i ==> #[trigger] a@[k] == b@[k],
        decreases a@.len() - i,
    {
        if a[i] != b[i] {
            return false;
        }
        i = i + 1;
    }
    assert(a@ =~= b@);
    true
}

} // verus!
