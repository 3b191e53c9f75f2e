//! How texts are taken apart and put together.

use crate::text;
use vstd::prelude::*;

verus! {

/// What a text is split into and put together again is the text.
pub proof fn law_split_joins(s: Seq<char>, separator: char)
    ensures
        text::split_text(s, separator).len() > 0,
        text::joined(text::split_text(s, separator), seq![separator]) == s,
        forall|i: int|
            0 <= i < text::split_text(s, separator).len() ==> !(#[trigger] text::split_text(
                s,
                separator,
            )[i]).contains(separator),
    decreases s.len(),
{
    let all = text::split_text(s, separator);
    let sep = seq![separator];
    if s.len() == 0 {
        assert(all =~= seq![Seq::<char>::empty()]);
        assert(text::joined(all, sep) =~= s);
    } else {
        let front = s.drop_last();
        let before = text::split_text(front, separator);
        law_split_joins(front, separator);
        assert(s =~= front.push(s.last()));
        if s.last() == separator {
            assert(all.drop_last() =~= before);
            assert(text::joined(all, sep) =~= s);
            assert forall|i: int| 0 <= i < all.len() implies !(#[trigger] all[i]).contains(separator) by {
                if i < before.len() {
                    assert(all[i] == before[i]);
                }
            }
        } else {
            let last = before.last().push(s.last());
            assert(all.drop_last() =~= before.drop_last());
            assert(all.last() == last);
            if before.len() == 1 {
                assert(text::joined(before, sep) == before[0]);
                assert(text::joined(all, sep) == last);
            } else {
                assert(text::joined(all, sep) =~= s);
            }
            assert forall|i: int| 0 <= i < all.len() implies !(#[trigger] all[i]).contains(separator) by {
                if i < before.len() - 1 {
                    assert(all[i] == before[i]);
                } else {
                    assert(!before[before.len() - 1].contains(separator));
                    assert(all[i] == last);
                    if last.contains(separator) {
                        let k = last.index_of(separator);
                        if k < before.last().len() {
                            assert(before.last()[k] == separator);
                        }
                    }
                }
            }
        }
    }
}

pub(crate) proof fn lemma_split_more(s: Seq<char>, piece: Seq<char>, separator: char)
    requires
        !piece.contains(separator),
    ensures
        text::split_text(s.push(separator) + piece, separator) == text::split_text(
            s,
            separator,
        ).push(piece),
        text::split_text(piece, separator) == seq![piece],
    decreases piece.len(),
{
    if piece.len() == 0 {
        assert(s.push(separator) + piece =~= s.push(separator));
        assert(s.push(separator).drop_last() =~= s);
        assert(piece =~= Seq::<char>::empty());
    } else {
        let front = piece.drop_last();
        assert(piece[piece.len() - 1] != separator);
        assert(!front.contains(separator)) by {
            if front.contains(separator) {
                let k = front.index_of(separator);
                assert(piece[k] == separator);
            }
        }
        lemma_split_more(s, front, separator);
        let whole = s.push(separator) + piece;
        assert(whole.drop_last() =~= s.push(separator) + front);
        assert(whole.last() == piece.last());
        let before = text::split_text(s, separator).push(front);
        assert(front.push(piece.last()) =~= piece);
        assert(before.update(before.len() - 1, piece) =~= text::split_text(s, separator).push(piece));
        assert(seq![front].update(0, piece) =~= seq![piece]);
    }
}

/// What is put together from pieces without the separator is split into these pieces.
pub proof fn law_join_splits(list: Seq<Seq<char>>, separator: char)
    requires
        list.len() > 0,
        forall|i: int| 0 <= i < list.len() ==> !(#[trigger] list[i]).contains(separator),
    ensures
        text::split_text(text::joined(list, seq![separator]), separator) == list,
    decreases list.len(),
{
    let sep = seq![separator];
    if list.len() == 1 {
        lemma_split_more(Seq::empty(), list[0], separator);
        assert(seq![list[0]] =~= list);
    } else {
        let front = list.drop_last();
        assert forall|i: int| 0 <= i < front.len() implies !(#[trigger] front[i]).contains(separator) by {
            assert(list[i] == front[i]);
        }
        law_join_splits(front, separator);
        assert(!list[list.len() - 1].contains(separator));
        let head = text::joined(front, sep);
        lemma_split_more(head, list.last(), separator);
        assert(text::joined(list, sep) =~= head.push(separator) + list.last());
        assert(front.push(list.last()) =~= list);
    }
}

/// The number that digits stand for.
pub open spec fn value(s: Seq<char>) -> nat
    decreases s.len(),
{
    if s.len() == 0 {
        0
    } else {
        10 * value(s.drop_last()) + ((s.last() as int) - ('0' as int)) as nat
    }
}

/// A number in decimal stands for the number, is made of digits, and begins with a zero only if it
/// is zero.
pub proof fn law_decimal(n: nat)
    ensures
        value(text::decimal_text(n)) == n,
        text::decimal_text(n).len() > 0,
        forall|i: int|
            0 <= i < text::decimal_text(n).len() ==> '0' <= #[trigger] text::decimal_text(n)[i]
                && text::decimal_text(n)[i] <= '9',
        text::decimal_text(n)[0] == '0' ==> n == 0,
    decreases n,
{
    let s = text::decimal_text(n);
    if n < 10 {
        assert(s.drop_last() =~= Seq::<char>::empty());
        assert(value(s.drop_last()) == 0);
        assert(s.last() as int == ('0' as int) + n);
    } else {
        law_decimal(n / 10);
        let front = text::decimal_text(n / 10);
        assert(s.drop_last() =~= front);
        assert(s.last() as int == ('0' as int) + (n % 10));
        assert(s[0] == front[0]);
        assert forall|i: int| 0 <= i < s.len() implies '0' <= #[trigger] s[i] && s[i] <= '9' by {
            if i < front.len() {
                assert(s[i] == front[i]);
            }
        }
    }
}

/// All characters are white space.
pub open spec fn blank(s: Seq<char>) -> bool {
    forall|i: int| 0 <= i < s.len() ==> text::is_white(#[trigger] s[i])
}

proof fn lemma_trimmed_end(s: Seq<char>)
    ensures
        ({
            let t = text::trimmed_end(s);
            &&& t.len() <= s.len()
            &&& s.take(t.len() as int) == t
            &&& blank(s.skip(t.len() as int))
            &&& t.len() > 0 ==> !text::is_white(t.last())
        }),
    decreases s.len(),
{
    let t = text::trimmed_end(s);
    if s.len() > 0 && text::is_white(s.last()) {
        let front = s.drop_last();
        lemma_trimmed_end(front);
        assert(s.take(t.len() as int) =~= front.take(t.len() as int));
        assert forall|i: int| 0 <= i < s.skip(t.len() as int).len() implies text::is_white(
            #[trigger] s.skip(t.len() as int)[i],
        ) by {
            if i < front.len() - t.len() {
                assert(front.skip(t.len() as int)[i] == s.skip(t.len() as int)[i]);
            }
        }
    } else {
        assert(s.take(s.len() as int) =~= s);
    }
}

/// A trimmed text is the text without white space at its ends, and has none there.
pub proof fn law_trimmed(s: Seq<char>)
    ensures
        ({
            let t = text::trimmed(s);
            &&& t.len() > 0 ==> !text::is_white(t[0]) && !text::is_white(t.last())
            &&& exists|a: Seq<char>, b: Seq<char>|
                blank(a) && blank(b) && s == #[trigger] (a + t + b)
        }),
    decreases s.len(),
{
    let t = text::trimmed(s);
    if s.len() > 0 && text::is_white(s[0]) {
        let rest = s.skip(1);
        law_trimmed(rest);
        let (a, b) = choose|a: Seq<char>, b: Seq<char>|
            blank(a) && blank(b) && rest == #[trigger] (a + t + b);
        let more = seq![s[0]] + a;
        assert(blank(more)) by {
            assert forall|i: int| 0 <= i < more.len() implies text::is_white(#[trigger] more[i]) by {
                if i > 0 {
                    assert(more[i] == a[i - 1]);
                }
            }
        }
        assert(s =~= seq![s[0]] + rest);
        assert(s =~= more + t + b);
    } else {
        lemma_trimmed_end(s);
        let none = Seq::<char>::empty();
        let b = s.skip(t.len() as int);
        assert(s =~= none + t + b);
        assert(blank(none));
        if t.len() > 0 {
            assert(s.take(t.len() as int)[0] == s[0]);
        }
    }
}

/// Every occurrence of a character is replaced, and nothing else.
pub proof fn law_replaced(s: Seq<char>, from: char, to: char, i: int)
    requires
        0 <= i < s.len(),
    ensures
        text::replaced(s, from, to).len() == s.len(),
        s[i] == from ==> text::replaced(s, from, to)[i] == to,
        s[i] != from ==> text::replaced(s, from, to)[i] == s[i],
{
}

} // verus!
