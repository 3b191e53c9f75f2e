//! Paths as sequences of components.

use crate::order;
use crate::order::{Key, Order};
use crate::text;
use vstd::prelude::*;

pub mod laws;

verus! {

/// A component of a path.
#[derive(Debug)]
pub enum Component {
    /// The leading separator of an absolute path.
    Root,
    /// `.`
    Cur,
    /// `..`
    Parent,
    /// A name.
    Normal(String),
}

/// What a component is, mathematically.
pub enum Part {
    Root,
    Cur,
    Parent,
    Normal(Seq<char>),
}

impl View for Component {
    type V = Part;

    open spec fn view(&self) -> Part {
        match self {
            Component::Root => Part::Root,
            Component::Cur => Part::Cur,
            Component::Parent => Part::Parent,
            Component::Normal(name) => Part::Normal(name@),
        }
    }
}

/// The components of a list.
pub open spec fn parts(list: Seq<Component>) -> Seq<Part> {
    list.map_values(|c: Component| c@)
}

pub open spec fn part_rank(p: Part) -> int {
    match p {
        Part::Root => 0,
        Part::Cur => 1,
        Part::Parent => 2,
        Part::Normal(_) => 3,
    }
}

/// The order of components: separators, then `.`, then `..`, then names in text order.
pub open spec fn part_before() -> spec_fn(Part, Part) -> bool {
    |a: Part, b: Part|
        part_rank(a) < part_rank(b) || match (a, b) {
            (Part::Normal(x), Part::Normal(y)) => order::text_before(x, y),
            _ => false,
        }
}

pub proof fn lemma_part_before()
    ensures
        order::strict_total(part_before()),
{
    order::lemma_char_before();
    let lt = part_before();
    assert forall|x: Part| !#[trigger] lt(x, x) by {
        if let Part::Normal(a) = x {
            order::lemma_lex_irreflexive(a, order::char_before());
        }
    }
    assert forall|x: Part, y: Part, z: Part| #[trigger] lt(x, y) && #[trigger] lt(y, z) implies lt(x, z) by {
        if let (Part::Normal(a), Part::Normal(b), Part::Normal(c)) = (x, y, z) {
            order::lemma_lex_transitive(a, b, c, order::char_before());
        }
    }
    assert forall|x: Part, y: Part| x == y || #[trigger] lt(x, y) || lt(y, x) by {
        if let (Part::Normal(a), Part::Normal(b)) = (x, y) {
            order::lemma_lex_total(a, b, order::char_before());
        }
    }
}

impl Component {
    /// The same component again.
    pub fn duplicate(&self) -> (copy: Component)
        ensures
            copy@ == self@,
    {
        match self {
            Component::Root => Component::Root,
            Component::Cur => Component::Cur,
            Component::Parent => Component::Parent,
            Component::Normal(name) => Component::Normal(name.clone()),
        }
    }

    fn rank(&self) -> (rank: u8)
        ensures
            rank == part_rank(self@),
    {
        match self {
            Component::Root => 0,
            Component::Cur => 1,
            Component::Parent => 2,
            Component::Normal(_) => 3,
        }
    }

    /// Compares two components.
    pub fn compare(&self, other: &Component) -> (order: Order)
        ensures
            match order {
                Order::Less => part_before()(self@, other@),
                Order::Equal => self@ == other@,
                Order::Greater => part_before()(other@, self@),
            },
    {
        match (self, other) {
            (Component::Normal(a), Component::Normal(b)) => {
                order::compare_text(a.as_str(), b.as_str())
            },
            _ => {
                let x: u8 = self.rank();
                let y: u8 = other.rank();
                if x < y {
                    Order::Less
                } else if y < x {
                    Order::Greater
                } else {
                    Order::Equal
                }
            },
        }
    }
}

/// A path.
#[derive(Debug)]
pub struct Path {
    pub parts: Vec<Component>,
}

impl View for Path {
    type V = Seq<Part>;

    open spec fn view(&self) -> Seq<Part> {
        parts(self.parts@)
    }
}

/// The order of paths: component by component.
pub open spec fn path_before(a: Seq<Part>, b: Seq<Part>) -> bool {
    order::lex_before(a, b, part_before())
}

impl Key for Path {
    type M = Seq<Part>;

    open spec fn model(&self) -> Seq<Part> {
        self@
    }

    open spec fn before(a: Seq<Part>, b: Seq<Part>) -> bool {
        path_before(a, b)
    }

    proof fn before_strict_total() {
        lemma_part_before();
        let lt = |a: Seq<Part>, b: Seq<Part>| <Path as Key>::before(a, b);
        assert forall|x: Seq<Part>| !#[trigger] lt(x, x) by {
            order::lemma_lex_irreflexive(x, part_before());
        }
        assert forall|x: Seq<Part>, y: Seq<Part>, z: Seq<Part>| #[trigger]
            lt(x, y) && #[trigger] lt(y, z) implies lt(x, z) by {
            order::lemma_lex_transitive(x, y, z, part_before());
        }
        assert forall|x: Seq<Part>, y: Seq<Part>| x == y || #[trigger] lt(x, y) || lt(y, x) by {
            order::lemma_lex_total(x, y, part_before());
        }
    }

    fn compare(&self, other: &Self) -> (order: Order) {
        let ghost x = self@;
        let ghost y = other@;
        let mut i: usize = 0;
        proof {
            lemma_part_before();
        }
        while i < self.parts.len() && i < other.parts.len()
            invariant
                i <= self.parts@.len(),
                i <= other.parts@.len(),
                x == self@,
                y == other@,
                order::strict_total(part_before()),
                forall|k: int| 0 <= k < i ==> #[trigger] x[k] == y[k],
            decreases self.parts@.len() - i,
        {
            proof {
                order::lemma_lex_skip(x, y, i as int, part_before());
                order::lemma_lex_skip(y, x, i as int, part_before());
                assert(x.skip(i as int)[0] == self.parts@[i as int]@);
                assert(y.skip(i as int)[0] == other.parts@[i as int]@);
            }
            match self.parts[i].compare(&other.parts[i]) {
                Order::Less => {
                    return Order::Less;
                },
                Order::Greater => {
                    return Order::Greater;
                },
                Order::Equal => {},
            }
            assert(x[i as int] == y[i as int]);
            i = i + 1;
        }
        proof {
            order::lemma_lex_skip(x, y, i as int, part_before());
            order::lemma_lex_skip(y, x, i as int, part_before());
        }
        if i < other.parts.len() {
            Order::Less
        } else if i < self.parts.len() {
            Order::Greater
        } else {
            assert(x =~= y);
            Order::Equal
        }
    }

    fn duplicate(&self) -> (copy: Self) {
        self.duplicated()
    }
}

pub proof fn lemma_path_order()
    ensures
        forall|a: Seq<Part>| !#[trigger] path_before(a, a),
        forall|a: Seq<Part>, b: Seq<Part>, c: Seq<Part>| #[trigger]
            path_before(a, b) && #[trigger] path_before(b, c) ==> path_before(a, c),
        forall|a: Seq<Part>, b: Seq<Part>| a == b || #[trigger] path_before(a, b) || path_before(b, a),
{
    lemma_part_before();
    assert forall|a: Seq<Part>| !#[trigger] path_before(a, a) by {
        order::lemma_lex_irreflexive(a, part_before());
    }
    assert forall|a: Seq<Part>, b: Seq<Part>, c: Seq<Part>| #[trigger]
        path_before(a, b) && #[trigger] path_before(b, c) implies path_before(a, c) by {
        order::lemma_lex_transitive(a, b, c, part_before());
    }
    assert forall|a: Seq<Part>, b: Seq<Part>| a == b || #[trigger] path_before(a, b) || path_before(
        b,
        a,
    ) by {
        order::lemma_lex_total(a, b, part_before());
    }
}

/// All components are names.
pub open spec fn plain(p: Seq<Part>) -> bool {
    forall|i: int| 0 <= i < p.len() ==> (#[trigger] p[i]) is Normal
}

/// The path begins with a separator.
pub open spec fn absolute(p: Seq<Part>) -> bool {
    p.len() > 0 && p[0] is Root
}

/// `p` with `q` behind it; an absolute `q` replaces `p`.
pub open spec fn joined_path(p: Seq<Part>, q: Seq<Part>) -> Seq<Part> {
    if absolute(q) {
        q
    } else {
        p + q
    }
}

/// The path without its last component; a root and an empty path have no parent.
pub open spec fn parent_path(p: Seq<Part>) -> Option<Seq<Part>> {
    if p.len() == 0 || p.last() is Root {
        None
    } else {
        Some(p.drop_last())
    }
}

/// The text of a component.
pub open spec fn part_text(p: Part) -> Seq<char> {
    match p {
        Part::Root => Seq::empty(),
        Part::Cur => "."@,
        Part::Parent => ".."@,
        Part::Normal(name) => name,
    }
}

/// The path with a separator between its components.
pub open spec fn path_text(p: Seq<Part>) -> Seq<char> {
    if p.len() == 1 && p[0] is Root {
        "/"@
    } else {
        text::joined(p.map_values(|c: Part| part_text(c)), "/"@)
    }
}

/// Where the last dot of a name is.
pub open spec fn last_dot(name: Seq<char>) -> int
    decreases name.len(),
{
    if name.len() == 0 {
        -1
    } else if name.last() == '.' {
        name.len() - 1
    } else {
        last_dot(name.drop_last())
    }
}

/// A name without its extension.  A leading dot starts no extension.
pub open spec fn stem_of(name: Seq<char>) -> Seq<char> {
    if last_dot(name) > 0 {
        name.take(last_dot(name))
    } else {
        name
    }
}

/// The extension of a name, if it has one.
pub open spec fn extension_of(name: Seq<char>) -> Option<Seq<char>> {
    if last_dot(name) > 0 {
        Some(name.skip(last_dot(name) + 1))
    } else {
        None
    }
}

fn find_last_dot(chars: &Vec<char>) -> (found: Option<usize>)
    ensures
        match found {
            Some(i) => i < chars@.len() && last_dot(chars@) == i,
            None => last_dot(chars@) == -1,
        },
{
    let mut i: usize = chars.len();
    assert(chars@.take(chars@.len() as int) =~= chars@);
    while i > 0
        invariant
            i <= chars@.len(),
            last_dot(chars@) == last_dot(chars@.take(i as int)),
        decreases i,
    {
        assert(chars@.take(i as int).last() == chars@[i - 1]);
        assert(chars@.take(i as int).drop_last() =~= chars@.take(i - 1));
        if chars[i - 1] == '.' {
            return Some(i - 1);
        }
        i = i - 1;
    }
    None
}

/// A name without its extension.
pub fn file_stem(name: &str) -> (stem: String)
    ensures
        stem@ == stem_of(name@),
{
    let chars = text::chars_of(name);
    match find_last_dot(&chars) {
        Some(i) => {
            if i > 0 {
                let stem = text::text_between(&chars, 0, i);
                assert(stem@ =~= name@.take(i as int));
                stem
            } else {
                name.to_owned()
            }
        },
        None => name.to_owned(),
    }
}

/// The extension of a name, if it has one.
pub fn extension(name: &str) -> (found: Option<String>)
    ensures
        text::optional_string(found) == extension_of(name@),
{
    let chars = text::chars_of(name);
    match find_last_dot(&chars) {
        Some(i) => {
            if i > 0 {
                let n: usize = chars.len();
                let found = text::text_between(&chars, i + 1, n);
                assert(found@ =~= name@.skip(i as int + 1));
                Some(found)
            } else {
                None
            }
        },
        None => None,
    }
}

impl Path {
    /// The path without components.
    pub fn empty() -> (p: Path)
        ensures
            p@ == Seq::<Part>::empty(),
    {
        let p = Path { parts: Vec::new() };
        assert(p@ =~= Seq::<Part>::empty());
        p
    }

    /// The components from `from` up to `to`.
    pub(crate) fn range(&self, from: usize, to: usize) -> (p: Path)
        requires
            from <= to <= self@.len(),
        ensures
            p@ == self@.subrange(from as int, to as int),
    {
        let mut list: Vec<Component> = Vec::new();
        let mut i: usize = from;
        while i < to
            invariant
                from <= i <= to <= self.parts@.len(),
                parts(list@) == self@.subrange(from as int, i as int),
            decreases to - i,
        {
            let ghost before = list@;
            list.push(self.parts[i].duplicate());
            assert(parts(list@) =~= parts(before).push(self@[i as int]));
            i = i + 1;
            assert(self@.subrange(from as int, i as int) =~= self@.subrange(
                from as int,
                i as int - 1,
            ).push(self@[i as int - 1]));
        }
        Path { parts: list }
    }

    /// The same path again.
    pub fn duplicated(&self) -> (copy: Path)
        ensures
            copy@ == self@,
    {
        let copy = self.range(0, self.parts.len());
        assert(copy@ =~= self@);
        copy
    }

    /// The path with a name behind it.
    pub fn child(&self, name: &str) -> (p: Path)
        ensures
            p@ == self@.push(Part::Normal(name@)),
    {
        let mut p = self.duplicated();
        let ghost before = p.parts@;
        p.parts.push(Component::Normal(name.to_owned()));
        assert(p@ =~= parts(before).push(Part::Normal(name@)));
        p
    }

    /// Whether the path begins with a separator.
    pub fn is_absolute(&self) -> (is: bool)
        ensures
            is == absolute(self@),
    {
        if self.parts.len() == 0 {
            false
        } else {
            assert(self@[0] == self.parts@[0]@);
            match self.parts[0] {
                Component::Root => true,
                _ => false,
            }
        }
    }

    /// The path with another behind it.
    pub fn join(&self, other: &Path) -> (p: Path)
        ensures
            p@ == joined_path(self@, other@),
    {
        if other.is_absolute() {
            return other.duplicated();
        }
        let mut p = self.duplicated();
        let mut i: usize = 0;
        assert(p@ =~= self@ + other@.take(0));
        while i < other.parts.len()
            invariant
                i <= other.parts@.len(),
                p@ == self@ + other@.take(i as int),
            decreases other.parts@.len() - i,
        {
            let ghost before = p.parts@;
            p.parts.push(other.parts[i].duplicate());
            assert(p@ =~= parts(before).push(other@[i as int]));
            assert(other@.take(i as int + 1) =~= other@.take(i as int).push(other@[i as int]));
            assert(p@ =~= self@ + other@.take(i as int + 1));
            i = i + 1;
        }
        assert(other@.take(other@.len() as int) =~= other@);
        p
    }

    /// The path without its last component.
    pub fn parent(&self) -> (found: Option<Path>)
        ensures
            match found {
                Some(p) => parent_path(self@) == Some(p@),
                None => parent_path(self@) is None,
            },
    {
        let n: usize = self.parts.len();
        if n == 0 {
            return None;
        }
        assert(self@.last() == self.parts@[n - 1]@);
        match self.parts[n - 1] {
            Component::Root => None,
            _ => {
                let p = self.range(0, n - 1);
                assert(p@ =~= self@.drop_last());
                Some(p)
            },
        }
    }

    /// The last component, if it is a name.
    pub fn file_name(&self) -> (found: Option<&String>)
        ensures
            match found {
                Some(name) => self@.len() > 0 && self@.last() == Part::Normal(name@),
                None => self@.len() == 0 || !(self@.last() is Normal),
            },
    {
        let n: usize = self.parts.len();
        if n == 0 {
            return None;
        }
        assert(self@.last() == self.parts@[n - 1]@);
        match &self.parts[n - 1] {
            Component::Normal(name) => Some(name),
            _ => None,
        }
    }

    /// Whether the path begins with the components of another.
    pub fn starts_with(&self, prefix: &Path) -> (is: bool)
        ensures
            is == prefix@.is_prefix_of(self@),
    {
        let n: usize = prefix.parts.len();
        if n > self.parts.len() {
            return false;
        }
        let mut i: usize = 0;
        while i < n
            invariant
                i <= n,
                n == prefix.parts@.len(),
                n <= self.parts@.len(),
                forall|k: int| 0 <= k < i ==> #[trigger] prefix@[k] == self@[k],
            decreases n - i,
        {
            proof {
                lemma_part_before();
                assert(prefix@[i as int] == prefix.parts@[i as int]@);
                assert(self@[i as int] == self.parts@[i as int]@);
            }
            match prefix.parts[i].compare(&self.parts[i]) {
                Order::Equal => {},
                _ => {
                    proof {
                        if prefix@.is_prefix_of(self@) {
                            assert(prefix@[i as int] == self@.subrange(0, n as int)[i as int]);
                        }
                    }
                    return false;
                },
            }
            i = i + 1;
        }
        assert(prefix@ =~= self@.subrange(0, n as int));
        true
    }

    /// What follows the components of another path, if the path begins with them.
    pub fn strip_prefix(&self, prefix: &Path) -> (found: Option<Path>)
        ensures
            match found {
                Some(rest) => prefix@.is_prefix_of(self@) && rest@ == self@.skip(
                    prefix@.len() as int,
                ),
                None => !prefix@.is_prefix_of(self@),
            },
    {
        if self.starts_with(prefix) {
            let rest = self.range(prefix.parts.len(), self.parts.len());
            assert(rest@ =~= self@.skip(prefix@.len() as int));
            Some(rest)
        } else {
            None
        }
    }

    /// Whether two paths have the same components.
    pub fn same(&self, other: &Path) -> (same: bool)
        ensures
            same == (self@ == other@),
    {
        proof {
            order::lemma_key_order::<Path>();
        }
        match self.compare(other) {
            Order::Equal => true,
            _ => false,
        }
    }

    /// The path as text.
    pub fn to_text(&self) -> (s: String)
        ensures
            s@ == path_text(self@),
    {
        if self.parts.len() == 1 {
            assert(self@[0] == self.parts@[0]@);
            match self.parts[0] {
                Component::Root => {
                    return String::from_str("/");
                },
                _ => {},
            }
        }
        let ghost wanted = self@.map_values(|c: Part| part_text(c));
        let mut names: Vec<String> = Vec::new();
        let mut i: usize = 0;
        while i < self.parts.len()
            invariant
                i <= self.parts@.len(),
                wanted == self@.map_values(|c: Part| part_text(c)),
                text::strings(names@) == wanted.take(i as int),
            decreases self.parts@.len() - i,
        {
            let ghost before = names@;
            let name = match &self.parts[i] {
                Component::Root => String::new(),
                Component::Cur => String::from_str("."),
                Component::Parent => String::from_str(".."),
                Component::Normal(name) => name.clone(),
            };
            assert(name@ == wanted[i as int]);
            names.push(name);
            assert(text::strings(names@) =~= text::strings(before).push(wanted[i as int]));
            assert(wanted.take(i as int + 1) =~= wanted.take(i as int).push(wanted[i as int]));
            i = i + 1;
        }
        assert(wanted.take(i as int) =~= wanted);
        text::join(&names, "/")
    }
}

/// The components of the first `n` pieces of a text between separators.  A separator at the very
/// beginning is the root; other empty pieces, and `.` anywhere but at the beginning, count for
/// nothing.
pub open spec fn parsed(pieces: Seq<Seq<char>>, n: nat) -> Seq<Part>
    decreases n,
{
    if n == 0 {
        Seq::empty()
    } else {
        let before = parsed(pieces, (n - 1) as nat);
        let piece = pieces[n - 1];
        if piece.len() == 0 {
            if n == 1 && pieces.len() > 1 {
                before.push(Part::Root)
            } else {
                before
            }
        } else if piece == "."@ {
            if n == 1 {
                before.push(Part::Cur)
            } else {
                before
            }
        } else if piece == ".."@ {
            before.push(Part::Parent)
        } else {
            before.push(Part::Normal(piece))
        }
    }
}

/// The path that a text stands for.
pub open spec fn parse_text(s: Seq<char>) -> Seq<Part> {
    parsed(text::split_text(s, '/'), text::split_text(s, '/').len())
}

impl Path {
    /// The path that a text stands for.
    pub fn parse(s: &str) -> (p: Path)
        ensures
            p@ == parse_text(s@),
    {
        let pieces = text::split(s, '/');
        let ghost all = text::split_text(s@, '/');
        let total: usize = pieces.len();
        let mut parts_list: Vec<Component> = Vec::new();
        let mut i: usize = 0;
        assert(parts(parts_list@) =~= Seq::<Part>::empty());
        for piece in it: pieces
            invariant
                it.seq() == pieces@,
                all == text::strings(pieces@),
                total == pieces@.len(),
                i == it.index(),
                i <= total,
                parts(parts_list@) == parsed(all, i as nat),
        {
            let ghost before = parts_list@;
            assert(all[i as int] == piece@);
            let dot = String::from_str(".");
            let dots = String::from_str("..");
            if piece.as_str().is_empty() {
                if i == 0 && total > 1 {
                    parts_list.push(Component::Root);
                    assert(parts(parts_list@) =~= parts(before).push(Part::Root));
                }
            } else if piece == dot {
                if i == 0 {
                    parts_list.push(Component::Cur);
                    assert(parts(parts_list@) =~= parts(before).push(Part::Cur));
                }
            } else if piece == dots {
                parts_list.push(Component::Parent);
                assert(parts(parts_list@) =~= parts(before).push(Part::Parent));
            } else {
                let ghost name = piece@;
                parts_list.push(Component::Normal(piece));
                assert(parts(parts_list@) =~= parts(before).push(Part::Normal(name)));
            }
            i = i + 1;
        }
        Path { parts: parts_list }
    }
}

/// The root as text stands for the root.
pub proof fn lemma_parse_root()
    ensures
        parse_text("/"@) == seq![Part::Root],
{
    reveal_strlit("/");
    reveal_with_fuel(text::split_text, 3);
    reveal_with_fuel(parsed, 3);
    let s = "/"@;
    assert(s =~= seq!['/']);
    assert(s.drop_last() =~= Seq::<char>::empty());
    assert(parse_text(s) =~= seq![Part::Root]);
}

} // verus!
