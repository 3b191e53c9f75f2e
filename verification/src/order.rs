//! Total orders, and maps and sets that keep their keys in order.

use crate::text;
use vstd::prelude::*;

verus! {

/// How two values compare.
#[derive(Clone, Copy, Debug, PartialEq, Eq, Structural)]
pub enum Order {
    Less,
    Equal,
    Greater,
}

/// `a` comes before `b` in the lexicographic order over `lt`.
pub open spec fn lex_before<T>(a: Seq<T>, b: Seq<T>, lt: spec_fn(T, T) -> bool) -> bool
    decreases a.len(),
{
    if b.len() == 0 {
        false
    } else if a.len() == 0 {
        true
    } else {
        lt(a[0], b[0]) || (a[0] == b[0] && lex_before(a.drop_first(), b.drop_first(), lt))
    }
}

/// `lt` is a strict total order.
pub open spec fn strict_total<T>(lt: spec_fn(T, T) -> bool) -> bool {
    &&& forall|x: T| !#[trigger] lt(x, x)
    &&& forall|x: T, y: T, z: T| #[trigger] lt(x, y) && #[trigger] lt(y, z) ==> lt(x, z)
    &&& forall|x: T, y: T| x == y || #[trigger] lt(x, y) || lt(y, x)
}

pub proof fn lemma_lex_irreflexive<T>(a: Seq<T>, lt: spec_fn(T, T) -> bool)
    requires
        strict_total(lt),
    ensures
        !lex_before(a, a, lt),
    decreases a.len(),
{
    if a.len() > 0 {
        lemma_lex_irreflexive(a.drop_first(), lt);
    }
}

pub proof fn lemma_lex_transitive<T>(a: Seq<T>, b: Seq<T>, c: Seq<T>, lt: spec_fn(T, T) -> bool)
    requires
        strict_total(lt),
        lex_before(a, b, lt),
        lex_before(b, c, lt),
    ensures
        lex_before(a, c, lt),
    decreases a.len(),
{
    if a.len() > 0 && a[0] == b[0] && b[0] == c[0] && !lt(a[0], b[0]) && !lt(b[0], c[0]) {
        lemma_lex_transitive(a.drop_first(), b.drop_first(), c.drop_first(), lt);
    }
}

pub proof fn lemma_lex_total<T>(a: Seq<T>, b: Seq<T>, lt: spec_fn(T, T) -> bool)
    requires
        strict_total(lt),
    ensures
        a == b || lex_before(a, b, lt) || lex_before(b, a, lt),
    decreases a.len(),
{
    if a.len() > 0 && b.len() > 0 && a[0] == b[0] {
        lemma_lex_total(a.drop_first(), b.drop_first(), lt);
        if a.drop_first() == b.drop_first() {
            assert forall|i: int| 0 <= i < a.len() implies a[i] == b[i] by {
                if i > 0 {
                    assert(a.drop_first()[i - 1] == b.drop_first()[i - 1]);
                }
            }
            assert(a.len() == a.drop_first().len() + 1);
            assert(a =~= b);
        }
    } else if a.len() == 0 && b.len() == 0 {
        assert(a =~= b);
    }
}

/// The order of two sequences does not change when a common front is cut off.
pub proof fn lemma_lex_skip<T>(a: Seq<T>, b: Seq<T>, n: int, lt: spec_fn(T, T) -> bool)
    requires
        strict_total(lt),
        0 <= n <= a.len(),
        n <= b.len(),
        forall|i: int| 0 <= i < n ==> #[trigger] a[i] == b[i],
    ensures
        lex_before(a, b, lt) == lex_before(a.skip(n), b.skip(n), lt),
    decreases n,
{
    if n == 0 {
        assert(a.skip(0) =~= a);
        assert(b.skip(0) =~= b);
    } else {
        let a1 = a.drop_first();
        let b1 = b.drop_first();
        assert(a[0] == b[0]);
        assert forall|i: int| 0 <= i < n - 1 implies #[trigger] a1[i] == b1[i] by {
            assert(a[i + 1] == b[i + 1]);
        }
        lemma_lex_skip(a1, b1, n - 1, lt);
        assert(a1.skip(n - 1) =~= a.skip(n));
        assert(b1.skip(n - 1) =~= b.skip(n));
    }
}

/// What lies between a sequence and one of its extensions extends it too.
pub proof fn lemma_lex_prefix<T>(p: Seq<T>, x: Seq<T>, y: Seq<T>, lt: spec_fn(T, T) -> bool)
    requires
        strict_total(lt),
        lex_before(p, x, lt),
        x == y || lex_before(x, y, lt),
        p.is_prefix_of(y),
    ensures
        p.is_prefix_of(x),
    decreases p.len(),
{
    if p.len() == 0 {
        assert(p =~= x.subrange(0, 0));
    } else if x != y {
        assert(y[0] == p[0]);
        let p1 = p.drop_first();
        let x1 = x.drop_first();
        let y1 = y.drop_first();
        assert(x[0] == p[0]);
        assert(p1 =~= y1.subrange(0, p1.len() as int)) by {
            assert forall|i: int| 0 <= i < p1.len() implies p1[i] == y1[i] by {
                assert(p[i + 1] == y.subrange(0, p.len() as int)[i + 1]);
            }
        }
        assert(p == y.subrange(0, p.len() as int));
        lemma_lex_prefix(p1, x1, y1, lt);
        assert(p =~= x.subrange(0, p.len() as int)) by {
            assert forall|i: int| 0 <= i < p.len() implies p[i] == x[i] by {
                if i > 0 {
                    assert(p1[i - 1] == x1.subrange(0, p1.len() as int)[i - 1]);
                }
            }
        }
    }
}

/// A sequence comes before its proper extensions.
pub proof fn lemma_lex_extension<T>(p: Seq<T>, x: Seq<T>, lt: spec_fn(T, T) -> bool)
    requires
        strict_total(lt),
        p.is_prefix_of(x),
        p.len() < x.len(),
    ensures
        lex_before(p, x, lt),
{
    assert(p == x.subrange(0, p.len() as int));
    assert forall|i: int| 0 <= i < p.len() implies #[trigger] p[i] == x[i] by {
        assert(p[i] == x.subrange(0, p.len() as int)[i]);
    }
    lemma_lex_skip(p, x, p.len() as int, lt);
}

/// Sequences in lexicographic order.
pub open spec fn lex_order<T>(lt: spec_fn(T, T) -> bool) -> spec_fn(Seq<T>, Seq<T>) -> bool {
    |a: Seq<T>, b: Seq<T>| lex_before(a, b, lt)
}

pub proof fn lemma_lex_order<T>(lt: spec_fn(T, T) -> bool)
    requires
        strict_total(lt),
    ensures
        strict_total(lex_order(lt)),
{
    let seq_lt = lex_order(lt);
    assert forall|x: Seq<T>| !#[trigger] seq_lt(x, x) by {
        lemma_lex_irreflexive(x, lt);
    }
    assert forall|x: Seq<T>, y: Seq<T>, z: Seq<T>| #[trigger]
        seq_lt(x, y) && #[trigger] seq_lt(y, z) implies seq_lt(x, z) by {
        lemma_lex_transitive(x, y, z, lt);
    }
    assert forall|x: Seq<T>, y: Seq<T>| x == y || #[trigger] seq_lt(x, y) || seq_lt(y, x) by {
        lemma_lex_total(x, y, lt);
    }
}

/// Pairs ordered by their first members, then by their second.
pub open spec fn pair_order<A, B>(lt: spec_fn(A, A) -> bool, lu: spec_fn(B, B) -> bool) -> spec_fn(
    (A, B),
    (A, B),
) -> bool {
    |x: (A, B), y: (A, B)| lt(x.0, y.0) || (x.0 == y.0 && lu(x.1, y.1))
}

pub proof fn lemma_pair_order<A, B>(lt: spec_fn(A, A) -> bool, lu: spec_fn(B, B) -> bool)
    requires
        strict_total(lt),
        strict_total(lu),
    ensures
        strict_total(pair_order(lt, lu)),
{
    let both = pair_order(lt, lu);
    assert forall|x: (A, B), y: (A, B), z: (A, B)| #[trigger]
        both(x, y) && #[trigger] both(y, z) implies both(x, z) by {
        if lt(x.0, y.0) && lt(y.0, z.0) {
            assert(lt(x.0, z.0));
        } else if x.0 == y.0 && y.0 == z.0 {
            assert(lu(x.1, y.1) && lu(y.1, z.1));
        }
    }
    assert forall|x: (A, B), y: (A, B)| x == y || #[trigger] both(x, y) || both(y, x) by {
        if x.0 == y.0 {
            assert(x.1 == y.1 || lu(x.1, y.1) || lu(y.1, x.1));
        } else {
            assert(lt(x.0, y.0) || lt(y.0, x.0));
        }
    }
}

/// Values that can be keys of a sorted map.
pub trait Key: Sized {
    /// The mathematical value.
    type M;

    /// The value's model.
    spec fn model(&self) -> Self::M;

    /// The order.
    spec fn before(a: Self::M, b: Self::M) -> bool;

    proof fn before_strict_total()
        ensures
            strict_total(|a: Self::M, b: Self::M| Self::before(a, b)),
    ;

    /// Compares two values.
    fn compare(&self, other: &Self) -> (order: Order)
        ensures
            match order {
                Order::Less => Self::before(self.model(), other.model()),
                Order::Equal => self.model() == other.model(),
                Order::Greater => Self::before(other.model(), self.model()),
            },
    ;

    /// A second value with the same model.
    fn duplicate(&self) -> (copy: Self)
        ensures
            copy.model() == self.model(),
    ;
}

pub proof fn lemma_key_order<K: Key>()
    ensures
        forall|a: K::M| !#[trigger] K::before(a, a),
        forall|a: K::M, b: K::M, c: K::M| #[trigger]
            K::before(a, b) && #[trigger] K::before(b, c) ==> K::before(a, c),
        forall|a: K::M, b: K::M| a == b || #[trigger] K::before(a, b) || K::before(b, a),
{
    K::before_strict_total();
    let lt = |a: K::M, b: K::M| K::before(a, b);
    assert forall|a: K::M| !#[trigger] K::before(a, a) by {
        assert(!lt(a, a));
    }
    assert forall|a: K::M, b: K::M, c: K::M| #[trigger]
        K::before(a, b) && #[trigger] K::before(b, c) implies K::before(a, c) by {
        assert(lt(a, b) && lt(b, c));
        assert(lt(a, c));
    }
    assert forall|a: K::M, b: K::M| a == b || #[trigger] K::before(a, b) || K::before(b, a) by {
        assert(a == b || lt(a, b) || lt(b, a));
    }
}

/// Characters in the order of their code points.
pub open spec fn char_before() -> spec_fn(char, char) -> bool {
    |a: char, b: char| (a as int) < (b as int)
}

pub proof fn lemma_char_before()
    ensures
        strict_total(char_before()),
{
    let lt = char_before();
    assert forall|x: char, y: char| x == y || #[trigger] lt(x, y) || lt(y, x) by {
        assert((x as int) == (y as int) ==> x == y);
    }
}

/// Text in the order of its characters.
pub open spec fn text_before(a: Seq<char>, b: Seq<char>) -> bool {
    lex_before(a, b, char_before())
}

pub proof fn lemma_text_before()
    ensures
        strict_total(|a: Seq<char>, b: Seq<char>| text_before(a, b)),
{
    lemma_char_before();
    let lt = |a: Seq<char>, b: Seq<char>| text_before(a, b);
    assert forall|x: Seq<char>| !#[trigger] lt(x, x) by {
        lemma_lex_irreflexive(x, char_before());
    }
    assert forall|x: Seq<char>, y: Seq<char>, z: Seq<char>| #[trigger]
        lt(x, y) && #[trigger] lt(y, z) implies lt(x, z) by {
        lemma_lex_transitive(x, y, z, char_before());
    }
    assert forall|x: Seq<char>, y: Seq<char>| x == y || #[trigger] lt(x, y) || lt(y, x) by {
        lemma_lex_total(x, y, char_before());
    }
}

/// Lists of text in lexicographic order.
pub open spec fn texts_order() -> spec_fn(Seq<Seq<char>>, Seq<Seq<char>>) -> bool {
    lex_order(lex_order(char_before()))
}

pub proof fn lemma_texts_order()
    ensures
        strict_total(texts_order()),
{
    lemma_char_before();
    lemma_lex_order(char_before());
    lemma_lex_order(lex_order(char_before()));
}

/// Compares two lists of strings.
pub fn compare_texts(a: &Vec<String>, b: &Vec<String>) -> (order: Order)
    ensures
        match order {
            Order::Less => texts_order()(text::strings(a@), text::strings(b@)),
            Order::Equal => text::strings(a@) == text::strings(b@),
            Order::Greater => texts_order()(text::strings(b@), text::strings(a@)),
        },
{
    let ghost x = text::strings(a@);
    let ghost y = text::strings(b@);
    let ghost lt = lex_order(char_before());
    proof {
        lemma_char_before();
        lemma_lex_order(char_before());
    }
    let mut i: usize = 0;
    while i < a.len() && i < b.len()
        invariant
            i <= a@.len(),
            i <= b@.len(),
            x == text::strings(a@),
            y == text::strings(b@),
            lt == lex_order(char_before()),
            strict_total(lt),
            forall|k: int| 0 <= k < i ==> #[trigger] x[k] == y[k],
        decreases a@.len() - i,
    {
        proof {
            lemma_lex_skip(x, y, i as int, lt);
            lemma_lex_skip(y, x, i as int, lt);
            assert(x.skip(i as int)[0] == a@[i as int]@);
            assert(y.skip(i as int)[0] == b@[i as int]@);
        }
        match compare_text(a[i].as_str(), b[i].as_str()) {
            Order::Less => {
                assert(lt(x.skip(i as int)[0], y.skip(i as int)[0]));
                return Order::Less;
            },
            Order::Greater => {
                assert(lt(y.skip(i as int)[0], x.skip(i as int)[0]));
                return Order::Greater;
            },
            Order::Equal => {},
        }
        assert(x[i as int] == y[i as int]);
        i = i + 1;
    }
    proof {
        lemma_lex_skip(x, y, i as int, lt);
        lemma_lex_skip(y, x, i as int, lt);
    }
    if i < b.len() {
        Order::Less
    } else if i < a.len() {
        Order::Greater
    } else {
        assert(x =~= y);
        Order::Equal
    }
}

/// Compares two strings by their characters.
pub fn compare_text(a: &str, b: &str) -> (order: Order)
    ensures
        match order {
            Order::Less => text_before(a@, b@),
            Order::Equal => a@ == b@,
            Order::Greater => text_before(b@, a@),
        },
{
    let x = text::chars_of(a);
    let y = text::chars_of(b);
    let mut i: usize = 0;
    proof {
        lemma_char_before();
    }
    while i < x.len() && i < y.len()
        invariant
            i <= x@.len(),
            i <= y@.len(),
            x@ == a@,
            y@ == b@,
            strict_total(char_before()),
            forall|k: int| 0 <= k < i ==> #[trigger] x@[k] == y@[k],
        decreases x@.len() - i,
    {
        proof {
            lemma_lex_skip(x@, y@, i as int, char_before());
            lemma_lex_skip(y@, x@, i as int, char_before());
        }
        if x[i] < y[i] {
            assert(char_before()(x@.skip(i as int)[0], y@.skip(i as int)[0]));
            return Order::Less;
        }
        if y[i] < x[i] {
            assert(char_before()(y@.skip(i as int)[0], x@.skip(i as int)[0]));
            return Order::Greater;
        }
        i = i + 1;
    }
    proof {
        lemma_lex_skip(x@, y@, i as int, char_before());
        lemma_lex_skip(y@, x@, i as int, char_before());
    }
    if i < y.len() {
        Order::Less
    } else if i < x.len() {
        Order::Greater
    } else {
        assert(x@ =~= y@);
        Order::Equal
    }
}

impl Key for String {
    type M = Seq<char>;

    open spec fn model(&self) -> Seq<char> {
        self@
    }

    open spec fn before(a: Seq<char>, b: Seq<char>) -> bool {
        text_before(a, b)
    }

    proof fn before_strict_total() {
        lemma_text_before();
        let lt = |a: Seq<char>, b: Seq<char>| text_before(a, b);
        assert(lt =~= |a: Seq<char>, b: Seq<char>| <String as Key>::before(a, b));
    }

    fn compare(&self, other: &Self) -> (order: Order) {
        compare_text(self.as_str(), other.as_str())
    }

    fn duplicate(&self) -> (copy: Self) {
        self.clone()
    }
}

/// Every key comes before the later ones.
pub open spec fn ascending<K: Key>(keys: Seq<K::M>) -> bool {
    forall|i: int, j: int|
        0 <= i < j < keys.len() ==> K::before(#[trigger] keys[i], #[trigger] keys[j])
}

pub proof fn lemma_ascending_distinct<K: Key>(keys: Seq<K::M>)
    requires
        ascending::<K>(keys),
    ensures
        keys.no_duplicates(),
{
    lemma_key_order::<K>();
    assert forall|i: int, j: int| 0 <= i < j < keys.len() implies keys[i] != keys[j] by {
        assert(K::before(keys[i], keys[j]));
    }
}

/// An ascending sequence is determined by its members.
pub proof fn lemma_ascending_unique<K: Key>(a: Seq<K::M>, b: Seq<K::M>)
    requires
        ascending::<K>(a),
        ascending::<K>(b),
        forall|k: K::M| #[trigger] a.contains(k) <==> b.contains(k),
    ensures
        a == b,
    decreases a.len(),
{
    lemma_key_order::<K>();
    if a.len() == 0 {
        if b.len() > 0 {
            assert(b.contains(b[0]));
            assert(a.contains(b[0]));
        }
        assert(a =~= b);
    } else {
        assert(a.contains(a[0]));
        assert(b.contains(a[0]));
        assert(b.contains(b[0]));
        assert(a.contains(b[0]));
        let i = choose|i: int| 0 <= i < b.len() && b[i] == a[0];
        let j = choose|j: int| 0 <= j < a.len() && a[j] == b[0];
        if i > 0 && j > 0 {
            assert(K::before(b[0], b[i]));
            assert(K::before(a[0], a[j]));
        }
        assert(a[0] == b[0]);
        let a1 = a.drop_first();
        let b1 = b.drop_first();
        assert forall|k: K::M| #[trigger] a1.contains(k) <==> b1.contains(k) by {
            if a1.contains(k) {
                let n = choose|n: int| 0 <= n < a1.len() && a1[n] == k;
                assert(a[n + 1] == k);
                assert(K::before(a[0], a[n + 1]));
                assert(a.contains(k));
                let m = choose|m: int| 0 <= m < b.len() && b[m] == k;
                assert(m > 0);
                assert(b1[m - 1] == k);
            }
            if b1.contains(k) {
                let n = choose|n: int| 0 <= n < b1.len() && b1[n] == k;
                assert(b[n + 1] == k);
                assert(K::before(b[0], b[n + 1]));
                assert(b.contains(k));
                assert(a.contains(k));
                let m = choose|m: int| 0 <= m < a.len() && a[m] == k;
                assert(m > 0);
                assert(a1[m - 1] == k);
            }
        }
        assert forall|x: int, y: int| 0 <= x < y < a1.len() implies K::before(
            #[trigger] a1[x],
            #[trigger] a1[y],
        ) by {
            assert(K::before(a[x + 1], a[y + 1]));
        }
        assert forall|x: int, y: int| 0 <= x < y < b1.len() implies K::before(
            #[trigger] b1[x],
            #[trigger] b1[y],
        ) by {
            assert(K::before(b[x + 1], b[y + 1]));
        }
        lemma_ascending_unique::<K>(a1, b1);
        assert(a =~= seq![a[0]] + a1);
        assert(b =~= seq![b[0]] + b1);
    }
}

/// A map that keeps its keys in ascending order.
pub struct SortedMap<K: Key, V> {
    pub(crate) entries: Vec<(K, V)>,
}

impl<K: Key, V> SortedMap<K, V> {
    /// The keys in order.
    pub closed spec fn keys(&self) -> Seq<K::M> {
        self.entries@.map_values(|e: (K, V)| e.0.model())
    }

    /// The values in the order of their keys.
    pub closed spec fn values(&self) -> Seq<V> {
        self.entries@.map_values(|e: (K, V)| e.1)
    }

    /// The keys ascend.
    pub open spec fn wf(&self) -> bool {
        ascending::<K>(self.keys())
    }

    /// The map has the key.
    pub open spec fn has(&self, k: K::M) -> bool {
        self.keys().contains(k)
    }

    /// The value of the key.
    pub open spec fn at(&self, k: K::M) -> V {
        self.values()[self.keys().index_of(k)]
    }

    pub broadcast proof fn lemma_lengths(&self)
        ensures
            #[trigger] self.keys().len() == self.values().len(),
    {
    }

    /// What the map says of the key in position `i`.
    pub proof fn lemma_at(&self, i: int)
        requires
            self.wf(),
            0 <= i < self.keys().len(),
        ensures
            self.has(self.keys()[i]),
            self.at(self.keys()[i]) == self.values()[i],
            self.keys().index_of(self.keys()[i]) == i,
    {
        lemma_ascending_distinct::<K>(self.keys());
        let k = self.keys()[i];
        assert(self.keys().contains(k));
        let n = self.keys().index_of(k);
        assert(self.keys()[n] == k);
    }

    /// A map without keys.
    pub fn new() -> (map: Self)
        ensures
            map.wf(),
            map.keys().len() == 0,
            map.values().len() == 0,
    {
        SortedMap { entries: Vec::new() }
    }

    /// The number of keys.
    pub fn len(&self) -> (n: usize)
        ensures
            n == self.keys().len(),
            n == self.values().len(),
    {
        self.entries.len()
    }

    /// There are no keys.
    pub fn is_empty(&self) -> (empty: bool)
        ensures
            empty == (self.keys().len() == 0),
    {
        self.entries.len() == 0
    }

    /// The key in position `i`.
    pub fn key_at(&self, i: usize) -> (key: &K)
        requires
            i < self.keys().len(),
        ensures
            key.model() == self.keys()[i as int],
    {
        &self.entries[i].0
    }

    /// The value in position `i`.
    pub fn value_at(&self, i: usize) -> (value: &V)
        requires
            i < self.keys().len(),
        ensures
            *value == self.values()[i as int],
    {
        &self.entries[i].1
    }

    /// Where the key is, or where it would go.
    pub(crate) fn locate(&self, key: &K) -> (found: Result<usize, usize>)
        requires
            self.wf(),
        ensures
            match found {
                Ok(i) => i < self.keys().len() && self.keys()[i as int] == key.model(),
                Err(i) => {
                    &&& i <= self.keys().len()
                    &&& !self.has(key.model())
                    &&& forall|j: int|
                        0 <= j < i ==> K::before(#[trigger] self.keys()[j], key.model())
                    &&& forall|j: int|
                        i <= j < self.keys().len() ==> K::before(
                            key.model(),
                            #[trigger] self.keys()[j],
                        )
                },
            },
    {
        proof {
            lemma_key_order::<K>();
        }
        let mut low: usize = 0;
        let mut high: usize = self.entries.len();
        while low < high
            invariant
                self.wf(),
                low <= high <= self.entries@.len(),
                self.keys().len() == self.entries@.len(),
                forall|a: K::M, b: K::M, c: K::M| #[trigger]
                    K::before(a, b) && #[trigger] K::before(b, c) ==> K::before(a, c),
                forall|j: int| 0 <= j < low ==> K::before(#[trigger] self.keys()[j], key.model()),
                forall|j: int|
                    high <= j < self.keys().len() ==> K::before(key.model(), #[trigger] self.keys()[j]),
            decreases high - low,
        {
            let mid: usize = low + (high - low) / 2;
            assert(self.keys()[mid as int] == self.entries@[mid as int].0.model());
            match key.compare(&self.entries[mid].0) {
                Order::Equal => {
                    return Ok(mid);
                },
                Order::Less => {
                    assert forall|j: int| mid <= j < self.keys().len() implies K::before(
                        key.model(),
                        #[trigger] self.keys()[j],
                    ) by {
                        if mid < j {
                            assert(K::before(self.keys()[mid as int], self.keys()[j]));
                        }
                    }
                    high = mid;
                },
                Order::Greater => {
                    assert forall|j: int| 0 <= j < mid + 1 implies K::before(
                        #[trigger] self.keys()[j],
                        key.model(),
                    ) by {
                        if j < mid {
                            assert(K::before(self.keys()[j], self.keys()[mid as int]));
                        }
                    }
                    low = mid + 1;
                },
            }
        }
        assert(!self.has(key.model())) by {
            if self.keys().contains(key.model()) {
                let j = choose|j: int| 0 <= j < self.keys().len() && self.keys()[j] == key.model();
                assert(K::before(key.model(), key.model()));
            }
        }
        Err(low)
    }

    /// The value of the key, if the map has it.
    pub fn get(&self, key: &K) -> (found: Option<&V>)
        requires
            self.wf(),
        ensures
            match found {
                Some(value) => self.has(key.model()) && *value == self.at(key.model()),
                None => !self.has(key.model()),
            },
    {
        match self.locate(key) {
            Ok(i) => {
                proof {
                    self.lemma_at(i as int);
                }
                Some(&self.entries[i].1)
            },
            Err(_) => None,
        }
    }

    /// Whether the map has the key.
    pub fn contains(&self, key: &K) -> (found: bool)
        requires
            self.wf(),
        ensures
            found == self.has(key.model()),
    {
        self.get(key).is_some()
    }

    /// Gives the key a value, and hands back the one it had.
    pub fn insert(&mut self, key: K, value: V) -> (previous: Option<V>)
        requires
            old(self).wf(),
        ensures
            final(self).wf(),
            forall|k: K::M| #[trigger]
                final(self).has(k) <==> old(self).has(k) || k == key.model(),
            forall|k: K::M|
                #![trigger final(self).at(k)]
                k != key.model() && old(self).has(k) ==> final(self).at(k) == old(self).at(k),
            final(self).at(key.model()) == value,
            match previous {
                Some(p) => old(self).has(key.model()) && p == old(self).at(key.model()),
                None => !old(self).has(key.model()),
            },
            final(self).keys().len() == old(self).keys().len() + (if old(self).has(key.model()) {
                0int
            } else {
                1int
            }),
    {
        let ghost before = *self;
        let ghost m = key.model();
        match self.locate(&key) {
            Ok(i) => {
                let mut pair = (key, value);
                std::mem::swap(&mut self.entries[i], &mut pair);
                proof {
                    assert(self.keys() =~= before.keys());
                    assert(self.values() =~= before.values().update(i as int, value));
                    before.lemma_at(i as int);
                    self.lemma_at(i as int);
                    assert forall|k: K::M|
                        #![trigger self.at(k)]
                        k != m && before.has(k) implies self.at(k) == before.at(k) by {
                        let n = before.keys().index_of(k);
                        assert(before.keys()[n] == k);
                    }
                }
                Some(pair.1)
            },
            Err(i) => {
                self.entries.insert(i, (key, value));
                proof {
                    lemma_key_order::<K>();
                    let after = self.keys();
                    assert(after =~= before.keys().insert(i as int, m));
                    assert(self.values() =~= before.values().insert(i as int, value));
                    assert forall|x: int, y: int| 0 <= x < y < after.len() implies K::before(
                        #[trigger] after[x],
                        #[trigger] after[y],
                    ) by {
                        let x0 = if x < i { x } else { x - 1 };
                        let y0 = if y < i { y } else { y - 1 };
                        if x != i && y != i {
                            assert(K::before(before.keys()[x0], before.keys()[y0]));
                        } else if x == i {
                            assert(K::before(m, before.keys()[y0]));
                        } else {
                            assert(K::before(before.keys()[x0], m));
                        }
                    }
                    assert(after[i as int] == m);
                    assert forall|k: K::M| #[trigger] self.has(k) <==> before.has(k) || k == m by {
                        if before.has(k) {
                            let n = before.keys().index_of(k);
                            assert(before.keys()[n] == k);
                            assert(after[if n < i { n } else { n + 1 }] == k);
                        }
                        if self.has(k) && k != m {
                            let n = after.index_of(k);
                            assert(after[n] == k);
                            assert(before.keys()[if n < i { n } else { n - 1 }] == k);
                        }
                        if k == m {
                            assert(after.contains(k));
                        }
                    }
                    self.lemma_at(i as int);
                    assert forall|k: K::M|
                        #![trigger self.at(k)]
                        k != m && before.has(k) implies self.at(k) == before.at(k) by {
                        let n = before.keys().index_of(k);
                        assert(before.keys()[n] == k);
                        let n1 = if n < i { n } else { n + 1 };
                        assert(after[n1] == k);
                        self.lemma_at(n1);
                        assert(self.values()[n1] == before.values()[n]);
                    }
                }
                None
            },
        }
    }

    /// Takes the key out, and hands back its value.
    pub fn remove(&mut self, key: &K) -> (removed: Option<V>)
        requires
            old(self).wf(),
        ensures
            final(self).wf(),
            forall|k: K::M| #[trigger]
                final(self).has(k) <==> old(self).has(k) && k != key.model(),
            forall|k: K::M|
                #![trigger final(self).at(k)]
                k != key.model() && old(self).has(k) ==> final(self).at(k) == old(self).at(k),
            match removed {
                Some(value) => old(self).has(key.model()) && value == old(self).at(key.model()),
                None => !old(self).has(key.model()) && *final(self) == *old(self),
            },
    {
        let ghost before = *self;
        let ghost m = key.model();
        match self.locate(key) {
            Ok(i) => {
                let pair = self.entries.remove(i);
                proof {
                    lemma_key_order::<K>();
                    before.lemma_at(i as int);
                    lemma_ascending_distinct::<K>(before.keys());
                    let after = self.keys();
                    assert(after =~= before.keys().remove(i as int));
                    assert(self.values() =~= before.values().remove(i as int));
                    assert forall|x: int, y: int| 0 <= x < y < after.len() implies K::before(
                        #[trigger] after[x],
                        #[trigger] after[y],
                    ) by {
                        let x0 = if x < i { x } else { x + 1 };
                        let y0 = if y < i { y } else { y + 1 };
                        assert(K::before(before.keys()[x0], before.keys()[y0]));
                    }
                    assert forall|k: K::M| #[trigger] self.has(k) <==> before.has(k) && k != m by {
                        if before.has(k) && k != m {
                            let n = before.keys().index_of(k);
                            assert(before.keys()[n] == k);
                            assert(n != i);
                            assert(after[if n < i { n } else { n - 1 }] == k);
                        }
                        if self.has(k) {
                            let n = after.index_of(k);
                            assert(after[n] == k);
                            let n0 = if n < i { n } else { n + 1 };
                            assert(before.keys()[n0] == k);
                            assert(before.keys()[n0] != before.keys()[i as int]);
                        }
                    }
                    assert forall|k: K::M|
                        #![trigger self.at(k)]
                        k != m && before.has(k) implies self.at(k) == before.at(k) by {
                        let n = before.keys().index_of(k);
                        assert(before.keys()[n] == k);
                        assert(n != i);
                        let n1 = if n < i { n } else { n - 1 };
                        assert(after[n1] == k);
                        self.lemma_at(n1);
                        assert(self.values()[n1] == before.values()[n]);
                    }
                }
                Some(pair.1)
            },
            Err(_) => None,
        }
    }
}

pub(crate) proof fn lemma_fields<K: Key, V>(map: SortedMap<K, V>)
    ensures
        map.keys() == map.entries@.map_values(|e: (K, V)| e.0.model()),
        map.values() == map.entries@.map_values(|e: (K, V)| e.1),
{
}

/// A set that keeps its members in ascending order.
pub struct SortedSet<K: Key> {
    pub(crate) members: Vec<K>,
}

/// The models of a list of keys.
pub open spec fn models<K: Key>(list: Seq<K>) -> Seq<K::M> {
    list.map_values(|k: K| k.model())
}

impl<K: Key> SortedSet<K> {
    /// The members in order.
    pub closed spec fn members(&self) -> Seq<K::M> {
        models(self.members@)
    }

    /// The members ascend.
    pub open spec fn wf(&self) -> bool {
        ascending::<K>(self.members())
    }

    /// Membership.
    pub open spec fn has(&self, k: K::M) -> bool {
        self.members().contains(k)
    }

    /// A set without members.
    pub fn new() -> (set: Self)
        ensures
            set.wf(),
            set.members().len() == 0,
    {
        SortedSet { members: Vec::new() }
    }

    /// The number of members.
    pub fn len(&self) -> (n: usize)
        ensures
            n == self.members().len(),
    {
        self.members.len()
    }

    /// There are no members.
    pub fn is_empty(&self) -> (empty: bool)
        ensures
            empty == (self.members().len() == 0),
    {
        self.members.len() == 0
    }

    /// The member in position `i`.
    pub fn at(&self, i: usize) -> (member: &K)
        requires
            i < self.members().len(),
        ensures
            member.model() == self.members()[i as int],
    {
        &self.members[i]
    }

    fn locate(&self, key: &K) -> (found: Result<usize, usize>)
        requires
            self.wf(),
        ensures
            match found {
                Ok(i) => i < self.members().len() && self.members()[i as int] == key.model(),
                Err(i) => {
                    &&& i <= self.members().len()
                    &&& !self.has(key.model())
                    &&& forall|j: int|
                        0 <= j < i ==> K::before(#[trigger] self.members()[j], key.model())
                    &&& forall|j: int|
                        i <= j < self.members().len() ==> K::before(
                            key.model(),
                            #[trigger] self.members()[j],
                        )
                },
            },
    {
        proof {
            lemma_key_order::<K>();
        }
        let mut i: usize = 0;
        while i < self.members.len()
            invariant
                self.wf(),
                i <= self.members@.len(),
                self.members().len() == self.members@.len(),
                forall|a: K::M, b: K::M, c: K::M| #[trigger]
                    K::before(a, b) && #[trigger] K::before(b, c) ==> K::before(a, c),
                forall|a: K::M| !#[trigger] K::before(a, a),
                forall|j: int| 0 <= j < i ==> K::before(#[trigger] self.members()[j], key.model()),
            decreases self.members@.len() - i,
        {
            assert(self.members()[i as int] == self.members@[i as int].model());
            match key.compare(&self.members[i]) {
                Order::Equal => {
                    return Ok(i);
                },
                Order::Less => {
                    assert forall|j: int| i <= j < self.members().len() implies K::before(
                        key.model(),
                        #[trigger] self.members()[j],
                    ) by {
                        if i < j {
                            assert(K::before(self.members()[i as int], self.members()[j]));
                        }
                    }
                    assert(!self.members().contains(key.model()));
                    return Err(i);
                },
                Order::Greater => {},
            }
            i = i + 1;
        }
        assert(!self.members().contains(key.model()));
        Err(i)
    }

    /// Whether the key is a member.
    pub fn contains(&self, key: &K) -> (found: bool)
        requires
            self.wf(),
        ensures
            found == self.has(key.model()),
    {
        match self.locate(key) {
            Ok(i) => {
                assert(self.members().contains(self.members()[i as int]));
                true
            },
            Err(_) => false,
        }
    }

    /// Makes the key a member; says whether it is new.
    pub fn insert(&mut self, key: K) -> (added: bool)
        requires
            old(self).wf(),
        ensures
            final(self).wf(),
            added == !old(self).has(key.model()),
            forall|k: K::M| #[trigger]
                final(self).has(k) <==> old(self).has(k) || k == key.model(),
    {
        let ghost before = self.members();
        let ghost m = key.model();
        match self.locate(&key) {
            Ok(i) => {
                assert(before.contains(before[i as int]));
                false
            },
            Err(i) => {
                self.members.insert(i, key);
                proof {
                    lemma_key_order::<K>();
                    let after = self.members();
                    assert(after =~= before.insert(i as int, m));
                    assert forall|x: int, y: int| 0 <= x < y < after.len() implies K::before(
                        #[trigger] after[x],
                        #[trigger] after[y],
                    ) by {
                        let x0 = if x < i { x } else { x - 1 };
                        let y0 = if y < i { y } else { y - 1 };
                        if x != i && y != i {
                            assert(K::before(before[x0], before[y0]));
                        } else if x == i {
                            assert(K::before(m, before[y0]));
                        } else {
                            assert(K::before(before[x0], m));
                        }
                    }
                    assert(after[i as int] == m);
                    assert forall|k: K::M| #[trigger] self.has(k) <==> before.contains(k) || k
                        == m by {
                        if before.contains(k) {
                            let n = before.index_of(k);
                            assert(before[n] == k);
                            assert(after[if n < i { n } else { n + 1 }] == k);
                        }
                        if self.has(k) && k != m {
                            let n = after.index_of(k);
                            assert(after[n] == k);
                            assert(before[if n < i { n } else { n - 1 }] == k);
                        }
                    }
                }
                true
            },
        }
    }

    /// The same set again.
    pub fn duplicate(&self) -> (copy: Self)
        ensures
            copy.members() == self.members(),
    {
        let mut members: Vec<K> = Vec::new();
        let mut i: usize = 0;
        while i < self.members.len()
            invariant
                i <= self.members@.len(),
                models(members@) == self.members().take(i as int),
            decreases self.members@.len() - i,
        {
            let ghost before = members@;
            members.push(self.members[i].duplicate());
            assert(models(members@) =~= models(before).push(self.members()[i as int]));
            assert(self.members().take(i as int + 1) =~= self.members().take(i as int).push(
                self.members()[i as int],
            ));
            i = i + 1;
        }
        assert(self.members().take(i as int) =~= self.members());
        SortedSet { members }
    }

    /// Adds the members of another set.
    pub fn extend(&mut self, other: Self)
        requires
            old(self).wf(),
        ensures
            final(self).wf(),
            forall|k: K::M| #[trigger] final(self).has(k) <==> old(self).has(k) || other.has(k),
    {
        let ghost before = *self;
        let ghost added = other.members();
        let ghost raw = other.members@;
        let list = other.members;
        for key in it: list
            invariant
                it.seq() == raw,
                added == models(raw),
                self.wf(),
                forall|k: K::M| #[trigger]
                    self.has(k) <==> before.has(k) || added.take(it.index() as int).contains(k),
        {
            let ghost n = it.index() as int;
            assert(added[n] == key.model());
            let ghost previous = *self;
            self.insert(key);
            proof {
                assert(added.take(n + 1) =~= added.take(n).push(added[n]));
                assert forall|k: K::M| #[trigger]
                    self.has(k) <==> before.has(k) || added.take(n + 1).contains(k) by {
                    lemma_contains_push(added.take(n), added[n], k);
                    assert(previous.has(k) <==> before.has(k) || added.take(n).contains(k));
                }
            }
        }
        assert(added.take(added.len() as int) =~= added);
    }
}

pub(crate) proof fn lemma_number_members(set: SortedSet<usize>)
    ensures
        set.members() == set.members@.map_values(|n: usize| n as int),
{
    assert(set.members() =~= set.members@.map_values(|n: usize| n as int));
}

pub(crate) proof fn lemma_set_members(set: SortedSet<String>)
    ensures
        set.members() == text::strings(set.members@),
{
    assert(set.members() =~= text::strings(set.members@));
}

pub proof fn lemma_contains_push<T>(s: Seq<T>, x: T, k: T)
    ensures
        s.push(x).contains(k) <==> s.contains(k) || k == x,
{
    assert(s.push(x)[s.len() as int] == x);
    if s.contains(k) {
        let n = s.index_of(k);
        assert(s.push(x)[n] == k);
    }
    if s.push(x).contains(k) && k != x {
        let n = s.push(x).index_of(k);
        assert(s[n] == k);
    }
}

/// The ascending sequence with one more member.
pub(crate) proof fn lemma_with_member<K: Key>(list: Seq<K::M>, k: K::M) -> (more: Seq<K::M>)
    requires
        ascending::<K>(list),
    ensures
        ascending::<K>(more),
        forall|x: K::M| #[trigger] more.contains(x) <==> list.contains(x) || x == k,
    decreases list.len(),
{
    lemma_key_order::<K>();
    if list.len() == 0 {
        let more = seq![k];
        assert(more[0] == k);
        more
    } else {
        let last = list.last();
        let front = list.drop_last();
        assert(list =~= front.push(last));
        assert forall|x: K::M| #[trigger] list.contains(x) <==> front.contains(x) || x == last by {
            lemma_contains_push(front, last, x);
        }
        if k == last {
            list
        } else if K::before(last, k) {
            let more = list.push(k);
            assert forall|x: K::M| #[trigger] more.contains(x) <==> list.contains(x) || x == k by {
                lemma_contains_push(list, k, x);
            }
            assert forall|i: int, j: int| 0 <= i < j < more.len() implies K::before(
                #[trigger] more[i],
                #[trigger] more[j],
            ) by {
                if j < list.len() {
                    assert(K::before(list[i], list[j]));
                } else if i < list.len() - 1 {
                    assert(K::before(list[i], list[list.len() - 1]));
                }
            }
            more
        } else {
            assert forall|i: int, j: int| 0 <= i < j < front.len() implies K::before(
                #[trigger] front[i],
                #[trigger] front[j],
            ) by {
                assert(K::before(list[i], list[j]));
            }
            let inner = lemma_with_member::<K>(front, k);
            let more = inner.push(last);
            assert forall|x: K::M| #[trigger] more.contains(x) <==> list.contains(x) || x == k by {
                lemma_contains_push(inner, last, x);
            }
            assert forall|i: int, j: int| 0 <= i < j < more.len() implies K::before(
                #[trigger] more[i],
                #[trigger] more[j],
            ) by {
                if j < inner.len() {
                    assert(K::before(inner[i], inner[j]));
                } else {
                    assert(inner.contains(inner[i]));
                    if front.contains(inner[i]) {
                        let n = front.index_of(inner[i]);
                        assert(front[n] == list[n]);
                        assert(K::before(list[n], list[list.len() - 1]));
                    }
                }
            }
            more
        }
    }
}

/// No key comes before an earlier one.
pub open spec fn in_order<K: Key>(keys: Seq<K::M>) -> bool {
    forall|i: int, j: int|
        0 <= i < j < keys.len() ==> !K::before(#[trigger] keys[j], #[trigger] keys[i])
}

/// `sorted` holds the members of `keys`, each as often, in order.
pub open spec fn sorted_from<K: Key>(sorted: Seq<K::M>, keys: Seq<K::M>) -> bool {
    in_order::<K>(sorted) && sorted.to_multiset() == keys.to_multiset()
}

/// Sorts keys.
pub fn sort_keys<K: Key>(list: Vec<K>) -> (sorted: Vec<K>)
    ensures
        sorted_from::<K>(models(sorted@), models(list@)),
{
    let ghost raw = list@;
    let ghost keys = models(raw);
    let mut sorted: Vec<K> = Vec::new();
    proof {
        assert(models(sorted@) =~= Seq::<K::M>::empty());
        assert(keys.take(0) =~= Seq::<K::M>::empty());
    }
    for key in it: list
        invariant
            it.seq() == raw,
            keys == models(raw),
            in_order::<K>(models(sorted@)),
            models(sorted@).to_multiset() == keys.take(it.index() as int).to_multiset(),
    {
        let ghost n = it.index() as int;
        let ghost before = models(sorted@);
        let ghost m = key.model();
        assert(keys[n] == m);
        let mut at: usize = sorted.len();
        proof {
            lemma_key_order::<K>();
        }
        while at > 0
            invariant_except_break
                at <= sorted@.len(),
                before == models(sorted@),
                m == key.model(),
                in_order::<K>(before),
                forall|a: K::M, b: K::M, c: K::M| #[trigger]
                    K::before(a, b) && #[trigger] K::before(b, c) ==> K::before(a, c),
                forall|a: K::M| !#[trigger] K::before(a, a),
                forall|j: int| at <= j < before.len() ==> K::before(m, #[trigger] before[j]),
            ensures
                at <= sorted@.len(),
                forall|j: int| 0 <= j < at ==> !K::before(m, #[trigger] before[j]),
                forall|j: int| at <= j < before.len() ==> K::before(m, #[trigger] before[j]),
            decreases at,
        {
            assert(before[at - 1] == sorted@[at - 1].model());
            let earlier = match key.compare(&sorted[at - 1]) {
                Order::Less => true,
                _ => false,
            };
            if !earlier {
                proof {
                    assert(!K::before(m, before[at - 1]));
                    assert forall|j: int| 0 <= j < at implies !K::before(m, #[trigger] before[j]) by {
                        if j < at - 1 && K::before(m, before[j]) {
                            lemma_key_order::<K>();
                            assert(!K::before(before[at - 1], before[j]));
                        }
                    }
                }
                break;
            }
            at = at - 1;
        }
        sorted.insert(at, key);
        proof {
            let after = models(sorted@);
            assert(after =~= before.insert(at as int, m));
            assert forall|x: int, y: int| 0 <= x < y < after.len() implies !K::before(
                #[trigger] after[y],
                #[trigger] after[x],
            ) by {
                let x0 = if x < at { x } else { x - 1 };
                let y0 = if y < at { y } else { y - 1 };
                if x != at && y != at {
                    assert(!K::before(before[y0], before[x0]));
                } else if x == at {
                    assert(K::before(m, before[y0]));
                    if K::before(before[y0], m) {
                        assert(K::before(m, m));
                    }
                } else {
                    assert(!K::before(m, before[x0]));
                }
            }
            lemma_insert_multiset(before, at as int, m);
            assert(keys.take(n + 1) =~= keys.take(n).push(m));
            lemma_push_multiset(keys.take(n), m);
        }
    }
    assert(keys.take(keys.len() as int) =~= keys);
    sorted
}

pub proof fn lemma_push_multiset<T>(s: Seq<T>, x: T)
    ensures
        s.push(x).to_multiset() == s.to_multiset().insert(x),
{
    vstd::seq_lib::to_multiset_build(s, x);
}

pub proof fn lemma_insert_multiset<T>(s: Seq<T>, i: int, x: T)
    requires
        0 <= i <= s.len(),
    ensures
        s.insert(i, x).to_multiset() == s.to_multiset().insert(x),
{
    vstd::seq_lib::to_multiset_insert(s, i, x);
}

/// Two orderly sequences with the same members, each as often, are equal.
pub proof fn lemma_sorted_unique<K: Key>(a: Seq<K::M>, b: Seq<K::M>)
    requires
        in_order::<K>(a),
        in_order::<K>(b),
        a.to_multiset() == b.to_multiset(),
    ensures
        a == b,
{
    lemma_key_order::<K>();
    let leq = |x: K::M, y: K::M| x == y || K::before(x, y);
    assert(vstd::relations::total_ordering(leq));
    assert(vstd::relations::sorted_by(a, leq));
    assert(vstd::relations::sorted_by(b, leq));
    vstd::seq_lib::lemma_sorted_unique(a, b, leq);
}

impl Key for usize {
    type M = int;

    open spec fn model(&self) -> int {
        *self as int
    }

    open spec fn before(a: int, b: int) -> bool {
        a < b
    }

    proof fn before_strict_total() {
    }

    fn compare(&self, other: &Self) -> (order: Order) {
        if *self < *other {
            Order::Less
        } else if *self == *other {
            Order::Equal
        } else {
            Order::Greater
        }
    }

    fn duplicate(&self) -> (copy: Self) {
        *self
    }
}

/// Pairs are ordered by their first member, then by their second.
impl<A: Key, B: Key> Key for (A, B) {
    type M = (A::M, B::M);

    open spec fn model(&self) -> (A::M, B::M) {
        (self.0.model(), self.1.model())
    }

    open spec fn before(a: (A::M, B::M), b: (A::M, B::M)) -> bool {
        A::before(a.0, b.0) || (a.0 == b.0 && B::before(a.1, b.1))
    }

    proof fn before_strict_total() {
        A::before_strict_total();
        B::before_strict_total();
        let lt = |a: A::M, b: A::M| A::before(a, b);
        let lu = |a: B::M, b: B::M| B::before(a, b);
        lemma_pair_order(lt, lu);
        assert(pair_order(lt, lu) =~= |a: (A::M, B::M), b: (A::M, B::M)|
            <(A, B) as Key>::before(a, b));
    }

    fn compare(&self, other: &Self) -> (order: Order) {
        match self.0.compare(&other.0) {
            Order::Less => Order::Less,
            Order::Greater => Order::Greater,
            Order::Equal => self.1.compare(&other.1),
        }
    }

    fn duplicate(&self) -> (copy: Self) {
        (self.0.duplicate(), self.1.duplicate())
    }
}

/// The members of a list with a key, in their order.
pub open spec fn with_key<M, V>(list: Seq<(M, V)>, key: M) -> Seq<(M, V)> {
    list.filter(|e: (M, V)| e.0 == key)
}

/// `sorted` is `list` ordered by key, members of one key in the order they had.
pub open spec fn stably_sorted<K: Key, V>(sorted: Seq<(K::M, V)>, list: Seq<(K::M, V)>) -> bool {
    &&& forall|i: int, j: int|
        0 <= i < j < sorted.len() ==> !K::before((#[trigger] sorted[j]).0, (#[trigger] sorted[i]).0)
    &&& forall|key: K::M| #[trigger] with_key(sorted, key) == with_key(list, key)
}

proof fn lemma_none_with_key<M, V>(list: Seq<(M, V)>, key: M)
    requires
        forall|i: int| 0 <= i < list.len() ==> (#[trigger] list[i]).0 != key,
    ensures
        with_key(list, key) == Seq::<(M, V)>::empty(),
    decreases list.len(),
{
    reveal(Seq::filter);
    if list.len() > 0 {
        lemma_none_with_key(list.drop_last(), key);
    }
}

/// Puts a member behind all whose key is not greater.
pub proof fn lemma_stable_insert<K: Key, V>(
    sorted: Seq<(K::M, V)>,
    list: Seq<(K::M, V)>,
    at: int,
    x: (K::M, V),
)
    requires
        stably_sorted::<K, V>(sorted, list),
        0 <= at <= sorted.len(),
        forall|i: int| 0 <= i < at ==> !K::before(x.0, (#[trigger] sorted[i]).0),
        forall|i: int| at <= i < sorted.len() ==> K::before(x.0, (#[trigger] sorted[i]).0),
    ensures
        stably_sorted::<K, V>(sorted.insert(at, x), list.push(x)),
{
    lemma_key_order::<K>();
    let done = sorted.insert(at, x);
    assert forall|i: int, j: int| 0 <= i < j < done.len() implies !K::before(
        (#[trigger] done[j]).0,
        (#[trigger] done[i]).0,
    ) by {
        if i < at && j == at {
            assert(!K::before(x.0, sorted[i].0));
        } else if i == at {
            assert(K::before(x.0, sorted[j - 1].0));
        } else {
            let a = if i < at { i } else { i - 1 };
            let b = if j < at { j } else { j - 1 };
            assert(done[i] == sorted[a] && done[j] == sorted[b]);
        }
    }
    assert forall|key: K::M| #[trigger] with_key(done, key) == with_key(list.push(x), key) by {
        let keep = |e: (K::M, V)| e.0 == key;
        let front = sorted.take(at);
        let back = sorted.skip(at);
        assert(sorted =~= front + back);
        assert(done =~= front + (seq![x] + back));
        assert(list.push(x) =~= list + seq![x]);
        Seq::filter_distributes_over_add(front, back, keep);
        Seq::filter_distributes_over_add(front, seq![x] + back, keep);
        Seq::filter_distributes_over_add(seq![x], back, keep);
        Seq::filter_distributes_over_add(list, seq![x], keep);
        assert(with_key(sorted, key) == with_key(list, key));
        if x.0 == key {
            assert forall|i: int| 0 <= i < back.len() implies (#[trigger] back[i]).0 != key by {
                assert(K::before(x.0, sorted[at + i].0));
            }
            lemma_none_with_key(back, key);
            assert(with_key(done, key) =~= with_key(list.push(x), key));
        } else {
            lemma_none_with_key(seq![x], key);
            assert(with_key(done, key) =~= with_key(list.push(x), key));
        }
    }
}

} // verus!
