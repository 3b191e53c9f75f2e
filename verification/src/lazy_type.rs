//! When a plugin is loaded.

use crate::order;
use crate::order::{Key, Order, SortedMap, SortedSet};
use crate::text;
use vstd::prelude::*;

verus! {

/// The mode of a key mapping; `None` stands for all modes.
#[derive(Clone, Copy, Debug, PartialEq, Eq, Structural)]
pub struct ModeChar(pub Option<char>);

/// No mode first, then modes by character.
pub open spec fn mode_order() -> spec_fn(Option<char>, Option<char>) -> bool {
    |a: Option<char>, b: Option<char>|
        match (a, b) {
            (None, Some(_)) => true,
            (Some(x), Some(y)) => (x as int) < (y as int),
            _ => false,
        }
}

pub proof fn lemma_mode_order()
    ensures
        order::strict_total(mode_order()),
{
    let lt = mode_order();
    assert forall|x: Option<char>, y: Option<char>| x == y || #[trigger] lt(x, y) || lt(y, x) by {
        if let (Some(a), Some(b)) = (x, y) {
            assert((a as int) == (b as int) ==> a == b);
        }
    }
}

impl ModeChar {
    /// The mode as it stands in a mapping command: the character, or nothing for all modes.
    pub fn to_text(&self) -> (s: String)
        ensures
            s@ == (match self.0 {
                Some(c) => seq![c],
                None => Seq::<char>::empty(),
            }),
    {
        let mut s = String::new();
        if let Some(c) = self.0 {
            text::push_char(&mut s, c);
            assert(s@ =~= seq![c]);
        }
        s
    }
}

impl Key for ModeChar {
    type M = Option<char>;

    open spec fn model(&self) -> Option<char> {
        self.0
    }

    open spec fn before(a: Option<char>, b: Option<char>) -> bool {
        mode_order()(a, b)
    }

    proof fn before_strict_total() {
        lemma_mode_order();
        assert(mode_order() =~= |a: Option<char>, b: Option<char>| <ModeChar as Key>::before(a, b));
    }

    fn compare(&self, other: &Self) -> (order: Order) {
        match (self.0, other.0) {
            (None, None) => Order::Equal,
            (None, Some(_)) => Order::Less,
            (Some(_), None) => Order::Greater,
            (Some(x), Some(y)) => {
                if x < y {
                    Order::Less
                } else if y < x {
                    Order::Greater
                } else {
                    Order::Equal
                }
            },
        }
    }

    fn duplicate(&self) -> (copy: Self) {
        ModeChar(self.0)
    }
}

/// Key patterns by mode, in mode order.
pub struct KeyPattern(pub SortedMap<ModeChar, Vec<String>>);

/// A pattern list per mode.
pub open spec fn pattern_model(p: KeyPattern) -> Seq<(Option<char>, Seq<Seq<char>>)> {
    Seq::new(
        p.0.keys().len(),
        |i: int| (p.0.keys()[i], text::strings(p.0.values()[i]@)),
    )
}

/// Key patterns in lexicographic order.
pub open spec fn pattern_order() -> spec_fn(
    Seq<(Option<char>, Seq<Seq<char>>)>,
    Seq<(Option<char>, Seq<Seq<char>>)>,
) -> bool {
    order::lex_order(order::pair_order(mode_order(), order::texts_order()))
}

pub proof fn lemma_pattern_order()
    ensures
        order::strict_total(order::pair_order(mode_order(), order::texts_order())),
        order::strict_total(pattern_order()),
{
    lemma_mode_order();
    order::lemma_texts_order();
    order::lemma_pair_order(mode_order(), order::texts_order());
    order::lemma_lex_order(order::pair_order(mode_order(), order::texts_order()));
}

/// A second list of the same strings.
pub(crate) fn duplicate_strings(list: &Vec<String>) -> (copy: Vec<String>)
    ensures
        text::strings(copy@) == text::strings(list@),
{
    let mut copy: Vec<String> = Vec::new();
    let mut i: usize = 0;
    let ghost all = text::strings(list@);
    while i < list.len()
        invariant
            i <= list@.len(),
            all == text::strings(list@),
            text::strings(copy@) == all.take(i as int),
        decreases list@.len() - i,
    {
        let ghost before = copy@;
        copy.push(list[i].clone());
        assert(text::strings(copy@) =~= text::strings(before).push(all[i as int]));
        assert(all.take(i as int + 1) =~= all.take(i as int).push(all[i as int]));
        i = i + 1;
    }
    assert(all.take(i as int) =~= all);
    copy
}

impl KeyPattern {
    /// No patterns.
    pub fn empty() -> (p: KeyPattern)
        ensures
            p.0.wf(),
            pattern_model(p).len() == 0,
    {
        KeyPattern(SortedMap::new())
    }

    /// Compares two key patterns.
    pub fn compare(&self, other: &KeyPattern) -> (order: Order)
        ensures
            match order {
                Order::Less => pattern_order()(pattern_model(*self), pattern_model(*other)),
                Order::Equal => pattern_model(*self) == pattern_model(*other),
                Order::Greater => pattern_order()(pattern_model(*other), pattern_model(*self)),
            },
    {
        let ghost x = pattern_model(*self);
        let ghost y = pattern_model(*other);
        let ghost lt = order::pair_order(mode_order(), order::texts_order());
        proof {
            lemma_pattern_order();
        }
        let n: usize = self.0.len();
        let m: usize = other.0.len();
        let mut i: usize = 0;
        while i < n && i < m
            invariant
                i <= n,
                i <= m,
                n == x.len(),
                m == y.len(),
                n == self.0.keys().len(),
                m == other.0.keys().len(),
                x == pattern_model(*self),
                y == pattern_model(*other),
                lt == order::pair_order(mode_order(), order::texts_order()),
                order::strict_total(lt),
                forall|k: int| 0 <= k < i ==> #[trigger] x[k] == y[k],
            decreases n - i,
        {
            proof {
                order::lemma_lex_skip(x, y, i as int, lt);
                order::lemma_lex_skip(y, x, i as int, lt);
                assert(x.skip(i as int)[0] == x[i as int]);
                assert(y.skip(i as int)[0] == y[i as int]);
            }
            let first = self.0.key_at(i).compare(other.0.key_at(i));
            let second = order::compare_texts(self.0.value_at(i), other.0.value_at(i));
            match (first, second) {
                (Order::Less, _) | (Order::Equal, Order::Less) => {
                    assert(lt(x[i as int], y[i as int]));
                    return Order::Less;
                },
                (Order::Greater, _) | (Order::Equal, Order::Greater) => {
                    assert(lt(y[i as int], x[i as int]));
                    return Order::Greater;
                },
                (Order::Equal, Order::Equal) => {},
            }
            assert(x[i as int] == y[i as int]);
            i = i + 1;
        }
        proof {
            order::lemma_lex_skip(x, y, i as int, lt);
            order::lemma_lex_skip(y, x, i as int, lt);
        }
        if i < m {
            Order::Less
        } else if i < n {
            Order::Greater
        } else {
            assert(x =~= y);
            Order::Equal
        }
    }

    /// The same patterns again.
    pub fn duplicate(&self) -> (copy: KeyPattern)
        ensures
            copy.0.keys() == self.0.keys(),
            pattern_model(copy) == pattern_model(*self),
    {
        let mut entries: Vec<(ModeChar, Vec<String>)> = Vec::new();
        let mut i: usize = 0;
        while i < self.0.entries.len()
            invariant
                i <= self.0.entries@.len(),
                entries@.len() == i,
                forall|k: int|
                    0 <= k < i ==> (#[trigger] entries@[k]).0 == self.0.entries@[k].0
                        && text::strings(entries@[k].1@) == text::strings(self.0.entries@[k].1@),
            decreases self.0.entries@.len() - i,
        {
            let entry = &self.0.entries[i];
            entries.push((entry.0, duplicate_strings(&entry.1)));
            i = i + 1;
        }
        let copy = KeyPattern(SortedMap { entries });
        proof {
            order::lemma_fields(copy.0);
            order::lemma_fields(self.0);
            assert(copy.0.keys() =~= self.0.keys());
            assert(pattern_model(copy) =~= pattern_model(*self));
        }
        copy
    }
}

/// What makes a lazy plugin load.
pub enum LoadEvent {
    /// An autocommand event.
    Autocmd(String),
    /// A user command.
    UserCmd(String),
    /// A file type.
    FileType(String),
    /// A Vim function.
    VimFunc(String),
    /// Another plugin, by name.
    OnSource(String),
    /// Key mappings.
    OnMap(KeyPattern),
    /// A Lua module.
    LuaModule(String),
}

/// What a load event is, mathematically.
pub enum Event {
    Autocmd(Seq<char>),
    UserCmd(Seq<char>),
    FileType(Seq<char>),
    VimFunc(Seq<char>),
    OnSource(Seq<char>),
    OnMap(Seq<(Option<char>, Seq<Seq<char>>)>),
    LuaModule(Seq<char>),
}

pub open spec fn event_rank(e: Event) -> int {
    match e {
        Event::Autocmd(_) => 0,
        Event::UserCmd(_) => 1,
        Event::FileType(_) => 2,
        Event::VimFunc(_) => 3,
        Event::OnSource(_) => 4,
        Event::OnMap(_) => 5,
        Event::LuaModule(_) => 6,
    }
}

/// The text of an event other than a key mapping.
pub open spec fn event_text(e: Event) -> Seq<char> {
    match e {
        Event::Autocmd(s) => s,
        Event::UserCmd(s) => s,
        Event::FileType(s) => s,
        Event::VimFunc(s) => s,
        Event::OnSource(s) => s,
        Event::OnMap(_) => Seq::empty(),
        Event::LuaModule(s) => s,
    }
}

/// Events by sort, then by text or pattern.
pub open spec fn event_order() -> spec_fn(Event, Event) -> bool {
    |a: Event, b: Event|
        event_rank(a) < event_rank(b) || (event_rank(a) == event_rank(b) && match (a, b) {
            (Event::OnMap(x), Event::OnMap(y)) => pattern_order()(x, y),
            _ => order::text_before(event_text(a), event_text(b)),
        })
}

pub proof fn lemma_event_order()
    ensures
        order::strict_total(event_order()),
{
    lemma_pattern_order();
    order::lemma_char_before();
    let lt = event_order();
    assert forall|x: Event| !#[trigger] lt(x, x) by {
        if let Event::OnMap(p) = x {
            assert(!pattern_order()(p, p));
        } else {
            order::lemma_lex_irreflexive(event_text(x), order::char_before());
        }
    }
    assert forall|x: Event, y: Event, z: Event| #[trigger] lt(x, y) && #[trigger] lt(y, z) implies lt(x, z) by {
        if event_rank(x) == event_rank(y) && event_rank(y) == event_rank(z) {
            if let (Event::OnMap(p), Event::OnMap(q), Event::OnMap(r)) = (x, y, z) {
                assert(pattern_order()(p, q) && pattern_order()(q, r));
            } else {
                order::lemma_lex_transitive(
                    event_text(x),
                    event_text(y),
                    event_text(z),
                    order::char_before(),
                );
            }
        }
    }
    assert forall|x: Event, y: Event| x == y || #[trigger] lt(x, y) || lt(y, x) by {
        if event_rank(x) == event_rank(y) {
            if let (Event::OnMap(p), Event::OnMap(q)) = (x, y) {
                assert(p == q || pattern_order()(p, q) || pattern_order()(q, p));
            } else {
                order::lemma_lex_total(event_text(x), event_text(y), order::char_before());
            }
        }
    }
}

impl LoadEvent {
    fn rank(&self) -> (rank: u8)
        ensures
            rank == event_rank(self.model()),
    {
        match self {
            LoadEvent::Autocmd(_) => 0,
            LoadEvent::UserCmd(_) => 1,
            LoadEvent::FileType(_) => 2,
            LoadEvent::VimFunc(_) => 3,
            LoadEvent::OnSource(_) => 4,
            LoadEvent::OnMap(_) => 5,
            LoadEvent::LuaModule(_) => 6,
        }
    }

    fn text(&self) -> (s: &str)
        ensures
            s@ == event_text(self.model()),
    {
        match self {
            LoadEvent::Autocmd(s) => s.as_str(),
            LoadEvent::UserCmd(s) => s.as_str(),
            LoadEvent::FileType(s) => s.as_str(),
            LoadEvent::VimFunc(s) => s.as_str(),
            LoadEvent::OnSource(s) => s.as_str(),
            LoadEvent::OnMap(_) => {
                proof {
                    reveal_strlit("");
                    assert(""@ =~= Seq::<char>::empty());
                }
                ""
            },
            LoadEvent::LuaModule(s) => s.as_str(),
        }
    }
}

impl Key for LoadEvent {
    type M = Event;

    open spec fn model(&self) -> Event {
        match self {
            LoadEvent::Autocmd(s) => Event::Autocmd(s@),
            LoadEvent::UserCmd(s) => Event::UserCmd(s@),
            LoadEvent::FileType(s) => Event::FileType(s@),
            LoadEvent::VimFunc(s) => Event::VimFunc(s@),
            LoadEvent::OnSource(s) => Event::OnSource(s@),
            LoadEvent::OnMap(p) => Event::OnMap(pattern_model(*p)),
            LoadEvent::LuaModule(s) => Event::LuaModule(s@),
        }
    }

    open spec fn before(a: Event, b: Event) -> bool {
        event_order()(a, b)
    }

    proof fn before_strict_total() {
        lemma_event_order();
        assert(event_order() =~= |a: Event, b: Event| <LoadEvent as Key>::before(a, b));
    }

    fn compare(&self, other: &Self) -> (order: Order) {
        match (self, other) {
            (LoadEvent::OnMap(p), LoadEvent::OnMap(q)) => p.compare(q),
            _ => {
                let x: u8 = self.rank();
                let y: u8 = other.rank();
                if x < y {
                    Order::Less
                } else if y < x {
                    Order::Greater
                } else {
                    order::compare_text(self.text(), other.text())
                }
            },
        }
    }

    fn duplicate(&self) -> (copy: Self) {
        match self {
            LoadEvent::Autocmd(s) => LoadEvent::Autocmd(s.clone()),
            LoadEvent::UserCmd(s) => LoadEvent::UserCmd(s.clone()),
            LoadEvent::FileType(s) => LoadEvent::FileType(s.clone()),
            LoadEvent::VimFunc(s) => LoadEvent::VimFunc(s.clone()),
            LoadEvent::OnSource(s) => LoadEvent::OnSource(s.clone()),
            LoadEvent::OnMap(p) => LoadEvent::OnMap(p.duplicate()),
            LoadEvent::LuaModule(s) => LoadEvent::LuaModule(s.clone()),
        }
    }
}

/// When a plugin is loaded: at startup, or when one of its events happens.
pub enum LazyType {
    Start,
    Opt(SortedSet<LoadEvent>),
}

/// What a lazy type is, mathematically.
pub enum Lazy {
    Start,
    Opt(Seq<Event>),
}

/// Startup first, then lazy types by their events.
pub open spec fn lazy_order() -> spec_fn(Lazy, Lazy) -> bool {
    |a: Lazy, b: Lazy|
        match (a, b) {
            (Lazy::Start, Lazy::Opt(_)) => true,
            (Lazy::Opt(x), Lazy::Opt(y)) => order::lex_order(event_order())(x, y),
            _ => false,
        }
}

pub proof fn lemma_lazy_order()
    ensures
        order::strict_total(lazy_order()),
{
    lemma_event_order();
    order::lemma_lex_order(event_order());
    let inner = order::lex_order(event_order());
    let lt = lazy_order();
    assert forall|x: Lazy| !#[trigger] lt(x, x) by {
        if let Lazy::Opt(a) = x {
            assert(!inner(a, a));
        }
    }
    assert forall|x: Lazy, y: Lazy, z: Lazy| #[trigger] lt(x, y) && #[trigger] lt(y, z) implies lt(x, z) by {
        if let (Lazy::Opt(a), Lazy::Opt(b), Lazy::Opt(c)) = (x, y, z) {
            assert(inner(a, b) && inner(b, c));
        }
    }
    assert forall|x: Lazy, y: Lazy| x == y || #[trigger] lt(x, y) || lt(y, x) by {
        if let (Lazy::Opt(a), Lazy::Opt(b)) = (x, y) {
            assert(a == b || inner(a, b) || inner(b, a));
        }
    }
}

impl View for LazyType {
    type V = Lazy;

    open spec fn view(&self) -> Lazy {
        match self {
            LazyType::Start => Lazy::Start,
            LazyType::Opt(events) => Lazy::Opt(events.members()),
        }
    }
}

impl Key for LazyType {
    type M = Lazy;

    open spec fn model(&self) -> Lazy {
        self@
    }

    open spec fn before(a: Lazy, b: Lazy) -> bool {
        lazy_order()(a, b)
    }

    proof fn before_strict_total() {
        lemma_lazy_order();
        assert(lazy_order() =~= |a: Lazy, b: Lazy| <LazyType as Key>::before(a, b));
    }

    fn compare(&self, other: &Self) -> (order: Order) {
        match (self, other) {
            (LazyType::Start, LazyType::Start) => Order::Equal,
            (LazyType::Start, LazyType::Opt(_)) => Order::Less,
            (LazyType::Opt(_), LazyType::Start) => Order::Greater,
            (LazyType::Opt(a), LazyType::Opt(b)) => {
                let ghost x = a.members();
                let ghost y = b.members();
                let ghost lt = event_order();
                proof {
                    lemma_event_order();
                }
                let n: usize = a.len();
                let m: usize = b.len();
                let mut i: usize = 0;
                while i < n && i < m
                    invariant
                        i <= n,
                        i <= m,
                        n == x.len(),
                        m == y.len(),
                        x == a.members(),
                        y == b.members(),
                        lt == event_order(),
                        order::strict_total(lt),
                        self@ == Lazy::Opt(x),
                        other@ == Lazy::Opt(y),
                        forall|k: int| 0 <= k < i ==> #[trigger] x[k] == y[k],
                    decreases n - i,
                {
                    proof {
                        order::lemma_lex_skip(x, y, i as int, lt);
                        order::lemma_lex_skip(y, x, i as int, lt);
                        assert(x.skip(i as int)[0] == x[i as int]);
                        assert(y.skip(i as int)[0] == y[i as int]);
                    }
                    match a.at(i).compare(b.at(i)) {
                        Order::Less => {
                            assert(lt(x[i as int], y[i as int]));
                            assert(order::lex_before(x, y, lt));
                            return Order::Less;
                        },
                        Order::Greater => {
                            assert(lt(y[i as int], x[i as int]));
                            assert(order::lex_before(y, x, lt));
                            return Order::Greater;
                        },
                        Order::Equal => {},
                    }
                    assert(x[i as int] == y[i as int]);
                    i = i + 1;
                }
                proof {
                    order::lemma_lex_skip(x, y, i as int, lt);
                    order::lemma_lex_skip(y, x, i as int, lt);
                }
                if i < m {
                    Order::Less
                } else if i < n {
                    Order::Greater
                } else {
                    assert(x =~= y);
                    Order::Equal
                }
            },
        }
    }

    fn duplicate(&self) -> (copy: Self) {
        match self {
            LazyType::Start => LazyType::Start,
            LazyType::Opt(events) => LazyType::Opt(events.duplicate()),
        }
    }
}

} // verus!
