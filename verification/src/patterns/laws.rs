//! What patterns match, and what rules leave out.

use crate::order;
use crate::patterns;
use vstd::prelude::*;

verus! {

/// Every character of the text stands for itself in a pattern.
pub open spec fn plain(s: Seq<char>) -> bool {
    forall|i: int|
        0 <= i < s.len() ==> {
            let c = #[trigger] s[i];
            c != '*' && c != '?' && c != '[' && c != '\\'
        }
}

/// What follows a text stands behind a slash or at the beginning.
pub open spec fn opens(start: bool, s: Seq<char>) -> bool {
    if s.len() == 0 {
        start
    } else {
        s.last() == '/'
    }
}

/// A pattern that begins with plain text matches what begins with it and goes on as the pattern.
proof fn lemma_prefix(start: bool, a: Seq<char>, p: Seq<char>, name: Seq<char>)
    requires
        plain(a),
    ensures
        patterns::glob_from(start, a + p, name) <==> a.len() <= name.len() && name.take(
            a.len() as int,
        ) == a && patterns::glob_from(opens(start, a), p, name.skip(a.len() as int)),
    decreases a.len(),
{
    if a.len() == 0 {
        assert(a + p =~= p);
        assert(name.skip(0) =~= name);
        assert(name.take(0) =~= a);
    } else {
        let rest = a.skip(1);
        let all = a + p;
        assert(all[0] == a[0]);
        assert(all.skip(1) =~= rest + p);
        if all.len() >= 2 && all[0] == '*' {
            assert(a[0] == '*');
        }
        if name.len() > 0 {
            let tail = name.skip(1);
            assert forall|i: int| 0 <= i < rest.len() implies {
                let c = #[trigger] rest[i];
                c != '*' && c != '?' && c != '[' && c != '\\'
            } by {
                assert(a[i + 1] == rest[i]);
            }
            lemma_prefix(a[0] == '/', rest, p, tail);
            assert(opens(a[0] == '/', rest) == opens(start, a)) by {
                if rest.len() > 0 {
                    assert(rest.last() == a.last());
                }
            }
            assert(patterns::glob_from(start, all, name) <==> a[0] == name[0]
                && patterns::glob_from(a[0] == '/', rest + p, tail));
            if a.len() <= name.len() {
                assert(tail.skip(rest.len() as int) =~= name.skip(a.len() as int));
                if a[0] == name[0] && tail.take(rest.len() as int) == rest {
                    assert(name.take(a.len() as int) =~= a) by {
                        assert forall|i: int| 0 <= i < a.len() implies name.take(a.len() as int)[i]
                            == a[i] by {
                            if i > 0 {
                                assert(tail.take(rest.len() as int)[i - 1] == rest[i - 1]);
                            }
                        }
                    }
                }
                if name.take(a.len() as int) == a {
                    assert(name.take(a.len() as int)[0] == a[0]);
                    assert(tail.take(rest.len() as int) =~= rest) by {
                        assert forall|i: int| 0 <= i < rest.len() implies tail.take(
                            rest.len() as int,
                        )[i] == rest[i] by {
                            assert(name.take(a.len() as int)[i + 1] == a[i + 1]);
                        }
                    }
                }
            }
        }
    }
}

proof fn lemma_suffix(start: bool, b: Seq<char>, name: Seq<char>)
    requires
        plain(b),
    ensures
        patterns::glob_from(start, b, name) <==> name == b,
{
    let none = Seq::<char>::empty();
    lemma_prefix(start, b, none, name);
    assert(b + none =~= b);
    if name == b {
        assert(name.take(b.len() as int) =~= b);
        assert(name.skip(b.len() as int) =~= none);
    }
    if b.len() <= name.len() && name.take(b.len() as int) == b && name.skip(b.len() as int).len()
        == 0 {
        assert(name =~= b);
    }
}

/// The text holds no slash.
pub open spec fn one_name(s: Seq<char>) -> bool {
    forall|i: int| 0 <= i < s.len() ==> #[trigger] s[i] != '/'
}

proof fn lemma_star(b: Seq<char>, name: Seq<char>)
    requires
        plain(b),
    ensures
        patterns::glob_from(false, seq!['*'] + b, name) <==> exists|n: int|
            0 <= n <= name.len() && one_name(name.take(n)) && #[trigger] name.skip(n) == b,
    decreases name.len(),
{
    let p = seq!['*'] + b;
    assert(p[0] == '*');
    assert(p.skip(1) =~= b);
    lemma_suffix(false, b, name);
    assert(name.skip(0) =~= name);
    if name.len() > 0 {
        let tail = name.skip(1);
        lemma_star(b, tail);
        if name[0] != '/' && exists|n: int|
            0 <= n <= tail.len() && one_name(tail.take(n)) && #[trigger] tail.skip(n) == b {
            let n = choose|n: int|
                0 <= n <= tail.len() && one_name(tail.take(n)) && #[trigger] tail.skip(n) == b;
            assert(name.skip(n + 1) =~= tail.skip(n));
            assert(one_name(name.take(n + 1))) by {
                assert forall|i: int| 0 <= i < n + 1 implies #[trigger] name.take(n + 1)[i] != '/' by {
                    if i > 0 {
                        assert(tail.take(n)[i - 1] == name.take(n + 1)[i]);
                    }
                }
            }
        }
        if exists|n: int|
            0 <= n <= name.len() && one_name(name.take(n)) && #[trigger] name.skip(n) == b {
            let n = choose|n: int|
                0 <= n <= name.len() && one_name(name.take(n)) && #[trigger] name.skip(n) == b;
            if n > 0 {
                assert(name.take(n)[0] != '/');
                assert(tail.skip(n - 1) =~= name.skip(n));
                assert(one_name(tail.take(n - 1))) by {
                    assert forall|i: int| 0 <= i < n - 1 implies #[trigger] tail.take(n - 1)[i]
                        != '/' by {
                        assert(name.take(n)[i + 1] == tail.take(n - 1)[i]);
                    }
                }
            }
        }
        if exists|n: int|
            0 <= n <= name.len() && one_name(name.take(n)) && #[trigger] name.skip(n) == b {
            assert(patterns::glob_from(false, p, name));
        }
        if patterns::glob_from(false, b, name) {
            assert(one_name(name.take(0)));
            assert(name.skip(0) == b);
        }
    } else {
        if name == b {
            assert(one_name(name.take(0)));
            assert(name.skip(0) == b);
        }
        if exists|n: int|
            0 <= n <= name.len() && one_name(name.take(n)) && #[trigger] name.skip(n) == b {
            assert(name =~= b);
        }
    }
}

/// `*` between plain texts stands for any characters but slashes, also for none.
pub proof fn law_star(a: Seq<char>, b: Seq<char>, name: Seq<char>)
    requires
        plain(a),
        plain(b),
    ensures
        patterns::glob(a + (seq!['*'] + b), name) <==> exists|middle: Seq<char>|
            one_name(middle) && name == #[trigger] (a + middle + b),
{
    let p = seq!['*'] + b;
    lemma_prefix(true, a, p, name);
    assert(p[0] == '*');
    if p.len() > 1 {
        assert(p[1] == b[0]);
    }
    let k = a.len() as int;
    if k <= name.len() {
        let rest = name.skip(k);
        lemma_star(b, rest);
        assert(patterns::glob_from(true, p, rest) == patterns::glob_from(false, p, rest));
        if patterns::glob(a + p, name) {
            let n = choose|n: int|
                0 <= n <= rest.len() && one_name(rest.take(n)) && #[trigger] rest.skip(n) == b;
            let middle = rest.take(n);
            assert(name =~= a + middle + b);
        }
        if exists|middle: Seq<char>| one_name(middle) && name == #[trigger] (a + middle + b) {
            let middle = choose|middle: Seq<char>|
                one_name(middle) && name == #[trigger] (a + middle + b);
            let n = middle.len() as int;
            assert(name.take(k) =~= a);
            assert(rest.take(n) =~= middle);
            assert(rest.skip(n) =~= b);
        }
    }
}

/// `?` between plain texts stands for one character that is no slash.
pub proof fn law_question(a: Seq<char>, b: Seq<char>, name: Seq<char>)
    requires
        plain(a),
        plain(b),
    ensures
        patterns::glob(a + (seq!['?'] + b), name) <==> exists|c: char|
            c != '/' && name == #[trigger] (a + seq![c] + b),
{
    let p = seq!['?'] + b;
    lemma_prefix(true, a, p, name);
    assert(p[0] == '?');
    assert(p.skip(1) =~= b);
    let k = a.len() as int;
    if k <= name.len() {
        let rest = name.skip(k);
        if rest.len() > 0 {
            lemma_suffix(false, b, rest.skip(1));
            if patterns::glob(a + p, name) {
                let c = rest[0];
                assert(name =~= a + seq![c] + b);
            }
        }
        if exists|c: char| c != '/' && name == #[trigger] (a + seq![c] + b) {
            let c = choose|c: char| c != '/' && name == #[trigger] (a + seq![c] + b);
            assert(name.take(k) =~= a);
            assert(rest[0] == c);
            assert(rest.skip(1) =~= b);
        }
    }
}

/// A backslash takes from the character behind it its meaning.
pub proof fn law_escape(a: Seq<char>, c: char, b: Seq<char>, name: Seq<char>)
    requires
        plain(a),
        plain(b),
    ensures
        patterns::glob(a + (seq!['\\', c] + b), name) <==> name == a + seq![c] + b,
{
    let p = seq!['\\', c] + b;
    lemma_prefix(true, a, p, name);
    assert(p[0] == '\\' && p[1] == c);
    assert(p.skip(2) =~= b);
    let k = a.len() as int;
    if k <= name.len() {
        let rest = name.skip(k);
        if rest.len() > 0 {
            lemma_suffix(c == '/', b, rest.skip(1));
            if patterns::glob(a + p, name) {
                assert(name =~= a + seq![c] + b);
            }
        }
        if name == a + seq![c] + b {
            assert(name.take(k) =~= a);
            assert(rest[0] == c);
            assert(rest.skip(1) =~= b);
        }
    }
}

/// `**` behind a slash stands for all that is below.
pub proof fn law_all_below(a: Seq<char>, name: Seq<char>)
    requires
        plain(a),
    ensures
        patterns::glob(a + "/**"@, name) <==> exists|below: Seq<char>|
            below.len() > 0 && name == #[trigger] (a + "/"@ + below),
{
    reveal_strlit("/**");
    reveal_strlit("/");
    let head = a + "/"@;
    let p = seq!['*', '*'];
    assert(head + p =~= a + "/**"@);
    assert(plain(head));
    lemma_prefix(true, head, p, name);
    let k = head.len() as int;
    if k <= name.len() {
        let below = name.skip(k);
        if patterns::glob(a + "/**"@, name) {
            assert(name =~= a + "/"@ + below);
        }
        if exists|below: Seq<char>| below.len() > 0 && name == #[trigger] (a + "/"@ + below) {
            let x = choose|below: Seq<char>| below.len() > 0 && name == #[trigger] (a + "/"@ + below);
            assert(name.take(k) =~= head);
            assert(below =~= x);
        }
    }
}

proof fn lemma_first_slash(path: Seq<char>)
    ensures
        patterns::first_slash(path) <= path.len(),
        patterns::first_slash(path) < path.len() ==> path[patterns::first_slash(path) as int] == '/',
        forall|i: int| 0 <= i < patterns::first_slash(path) ==> #[trigger] path[i] != '/',
    decreases path.len(),
{
    if path.len() > 0 && path[0] != '/' {
        let tail = path.skip(1);
        lemma_first_slash(tail);
        assert forall|i: int| 0 <= i < patterns::first_slash(path) implies #[trigger] path[i] != '/' by {
            if i > 0 {
                assert(tail[i - 1] == path[i]);
            }
        }
    }
}

/// `**/` at the beginning stands for any number of directories, also for none.
pub proof fn law_any_directories(b: Seq<char>, path: Seq<char>)
    requires
        plain(b),
    ensures
        patterns::glob("**/"@ + b, path) <==> path == b || exists|above: Seq<char>|
            path == #[trigger] (above + "/"@ + b),
    decreases path.len(),
{
    reveal_strlit("**/");
    reveal_strlit("/");
    let p = "**/"@ + b;
    assert(p[0] == '*' && p[1] == '*' && p[2] == '/');
    assert(p.skip(3) =~= b);
    lemma_suffix(true, b, path);
    lemma_first_slash(path);
    let k = patterns::first_slash(path) as int;
    if k < path.len() {
        let tail = path.skip(k + 1);
        law_any_directories(b, tail);
        if tail == b {
            assert(path =~= path.take(k) + "/"@ + b);
        }
        if exists|above: Seq<char>| tail == #[trigger] (above + "/"@ + b) {
            let above = choose|above: Seq<char>| tail == #[trigger] (above + "/"@ + b);
            let more = path.take(k) + "/"@ + above;
            assert(path =~= path.take(k) + "/"@ + tail);
            assert(path =~= more + "/"@ + b);
        }
        if exists|above: Seq<char>| path == #[trigger] (above + "/"@ + b) {
            let above = choose|above: Seq<char>| path == #[trigger] (above + "/"@ + b);
            assert(path[above.len() as int] == '/');
            if above.len() == k {
                assert(tail =~= b);
            } else {
                assert(above.len() > k);
                let less = above.skip(k + 1);
                assert(tail =~= less + "/"@ + b);
            }
        }
    } else {
        if exists|above: Seq<char>| path == #[trigger] (above + "/"@ + b) {
            let above = choose|above: Seq<char>| path == #[trigger] (above + "/"@ + b);
            assert(path[above.len() as int] == '/');
        }
    }
}

/// A class of one range stands for one of its characters, but no slash; with `!` or `^` in front
/// for one that is not.
pub proof fn law_range(low: char, high: char, b: Seq<char>, c: char)
    requires
        plain(b),
        low != '\\' && low != '!' && low != '^',
        high != '\\' && high != ']',
    ensures
        patterns::glob(seq!['[', low, '-', high, ']'] + b, seq![c] + b) <==> c != '/' && low <= c
            && c <= high,
        patterns::glob(seq!['[', '!', low, '-', high, ']'] + b, seq![c] + b) <==> c != '/' && !(low
            <= c && c <= high),
        patterns::glob(seq!['[', '^', low, '-', high, ']'] + b, seq![c] + b) <==> c != '/' && !(low
            <= c && c <= high),
{
    let members = seq![low, '-', high, ']'] + b;
    let name = seq![c] + b;
    lemma_one_range(low, high, b, c);
    lemma_suffix(false, b, b);
    assert(name.skip(1) =~= b);
    assert(name[0] == c);
    let p = seq!['[', low, '-', high, ']'] + b;
    assert(p[0] == '[');
    assert(p.skip(1) =~= members);
    assert(members[0] == low);
    let q = seq!['[', '!', low, '-', high, ']'] + b;
    assert(q[0] == '[');
    assert(q.skip(1) =~= seq!['!'] + members);
    assert((seq!['!'] + members).skip(1) =~= members);
    let r = seq!['[', '^', low, '-', high, ']'] + b;
    assert(r[0] == '[');
    assert(r.skip(1) =~= seq!['^'] + members);
    assert((seq!['^'] + members).skip(1) =~= members);
}

proof fn lemma_one_range(low: char, high: char, b: Seq<char>, c: char)
    requires
        low != '\\',
        high != '\\' && high != ']',
    ensures
        patterns::class_rest(seq![low, '-', high, ']'] + b, true, c, false) == Some(
            (low <= c && c <= high, b),
        ),
{
    let p = seq![low, '-', high, ']'] + b;
    let after = seq!['-', high, ']'] + b;
    let end = seq![']'] + b;
    assert(p[0] == low);
    assert(p.skip(1) =~= after);
    assert(after[0] == '-' && after[1] == high);
    assert(after.skip(1) =~= seq![high, ']'] + b);
    assert((seq![high, ']'] + b)[0] == high);
    assert((seq![high, ']'] + b).skip(1) =~= end);
    assert(end[0] == ']');
    assert(end.skip(1) =~= b);
    reveal_with_fuel(patterns::class_rest, 3);
}

/// A class of one character stands for that character, unless it is a slash.
pub proof fn law_one_of(x: char, b: Seq<char>, c: char)
    requires
        plain(b),
        x != '\\' && x != '!' && x != '^',
    ensures
        patterns::glob(seq!['[', x, ']'] + b, seq![c] + b) <==> c != '/' && c == x,
        patterns::glob(seq!['[', '!', x, ']'] + b, seq![c] + b) <==> c != '/' && c != x,
        patterns::glob(seq!['[', '\\', x, ']'] + b, seq![c] + b) <==> c != '/' && c == x,
{
    let members = seq![x, ']'] + b;
    let end = seq![']'] + b;
    let name = seq![c] + b;
    reveal_with_fuel(patterns::class_rest, 3);
    lemma_suffix(false, b, b);
    assert(name.skip(1) =~= b);
    assert(name[0] == c);
    assert(members[0] == x);
    assert(members.skip(1) =~= end);
    assert(end[0] == ']');
    assert(end.skip(1) =~= b);
    let p = seq!['[', x, ']'] + b;
    assert(p[0] == '[');
    assert(p.skip(1) =~= members);
    let q = seq!['[', '!', x, ']'] + b;
    assert(q[0] == '[');
    assert(q.skip(1) =~= seq!['!'] + members);
    assert((seq!['!'] + members).skip(1) =~= members);
    let r = seq!['[', '\\', x, ']'] + b;
    let escaped = seq!['\\', x, ']'] + b;
    assert(r[0] == '[');
    assert(r.skip(1) =~= escaped);
    assert(escaped[0] == '\\' && escaped[1] == x);
    assert(escaped.skip(2) =~= end);
}

/// The last rule that speaks of an entry decides: an entry is left out exactly if a rule without
/// `!` speaks of it, and no later rule does.
pub proof fn law_last_rule_decides(rules: Seq<Seq<char>>, path: Seq<char>, is_dir: bool)
    ensures
        patterns::left_out(rules, path, is_dir) <==> exists|i: int|
            0 <= i < rules.len() && patterns::rule_matches(#[trigger] rules[i], path, is_dir)
                && rules[i][0] != '!' && forall|j: int|
                i < j < rules.len() ==> !patterns::rule_matches(#[trigger] rules[j], path, is_dir),
    decreases rules.len(),
{
    if rules.len() > 0 {
        let front = rules.drop_last();
        let last = rules.last();
        law_last_rule_decides(front, path, is_dir);
        assert(rules[rules.len() - 1] == last);
        if patterns::rule_matches(last, path, is_dir) {
            assert(last.len() > 0);
            if last[0] != '!' {
                assert(patterns::rule_matches(rules[rules.len() - 1], path, is_dir));
            }
        } else {
            if patterns::left_out(front, path, is_dir) {
                let i = choose|i: int|
                    0 <= i < front.len() && patterns::rule_matches(#[trigger] front[i], path, is_dir)
                        && front[i][0] != '!' && forall|j: int|
                        i < j < front.len() ==> !patterns::rule_matches(
                            #[trigger] front[j],
                            path,
                            is_dir,
                        );
                assert(rules[i] == front[i]);
                assert forall|j: int| i < j < rules.len() implies !patterns::rule_matches(
                    #[trigger] rules[j],
                    path,
                    is_dir,
                ) by {
                    if j < front.len() {
                        assert(front[j] == rules[j]);
                    }
                }
            }
            if exists|i: int|
                0 <= i < rules.len() && patterns::rule_matches(#[trigger] rules[i], path, is_dir)
                    && rules[i][0] != '!' && forall|j: int|
                    i < j < rules.len() ==> !patterns::rule_matches(
                        #[trigger] rules[j],
                        path,
                        is_dir,
                    ) {
                let i = choose|i: int|
                    0 <= i < rules.len() && patterns::rule_matches(#[trigger] rules[i], path, is_dir)
                        && rules[i][0] != '!' && forall|j: int|
                        i < j < rules.len() ==> !patterns::rule_matches(
                            #[trigger] rules[j],
                            path,
                            is_dir,
                        );
                assert(front[i] == rules[i]);
                assert forall|j: int| i < j < front.len() implies !patterns::rule_matches(
                    #[trigger] front[j],
                    path,
                    is_dir,
                ) by {
                    assert(front[j] == rules[j]);
                }
            }
        }
    }
}

/// Comments and empty lines speak of nothing.
pub proof fn law_no_rule(line: Seq<char>, path: Seq<char>, is_dir: bool)
    requires
        line.len() == 0 || line[0] == '#' || forall|i: int| 0 <= i < line.len() ==> #[trigger] line[i] == ' ',
    ensures
        !patterns::rule_matches(line, path, is_dir),
{
    if line.len() > 0 && line[0] != '#' {
        lemma_blank(line);
    }
}

proof fn lemma_blank(line: Seq<char>)
    requires
        forall|i: int| 0 <= i < line.len() ==> #[trigger] line[i] == ' ',
    ensures
        patterns::trimmed(line).len() == 0,
    decreases line.len(),
{
    if line.len() > 0 {
        assert(line[line.len() - 1] == ' ');
        let front = line.drop_last();
        if front.len() > 0 {
            assert(line[front.len() - 1] == ' ');
        }
        assert(!patterns::ends_escaping(front));
        lemma_blank(front);
    }
}

/// The last name of the path: the path itself, or what is behind a slash.
pub open spec fn ends_with_name(path: Seq<char>, name: Seq<char>) -> bool {
    path == name || exists|above: Seq<char>| path == #[trigger] (above + "/"@ + name)
}

proof fn lemma_last_name(path: Seq<char>, name: Seq<char>)
    requires
        one_name(name),
    ensures
        patterns::last_name(path) == name <==> ends_with_name(path, name),
    decreases path.len(),
{
    reveal_strlit("/");
    if name.len() == 0 {
        assert(name =~= Seq::<char>::empty());
    }
    if path.len() == 0 {
        assert(path =~= Seq::<char>::empty());
        if ends_with_name(path, name) && path != name {
            let above = choose|above: Seq<char>| path == #[trigger] (above + "/"@ + name);
            assert(path.len() > 0);
        }
        if patterns::last_name(path) == name {
            assert(path =~= name);
        }
    } else if path.last() == '/' {
        if name.len() == 0 {
            assert(path =~= path.drop_last() + "/"@ + name);
        } else if ends_with_name(path, name) {
            assert(path.last() == name.last());
            assert(name[name.len() - 1] != '/');
        }
    } else {
        let front = path.drop_last();
        let found = patterns::last_name(front);
        if name.len() == 0 {
            assert(found.push(path.last()).len() > 0);
            if ends_with_name(path, name) {
                let above = choose|above: Seq<char>| path == #[trigger] (above + "/"@ + name);
                assert(path.last() == '/');
            }
        } else {
            let less = name.drop_last();
            assert(one_name(less)) by {
                assert forall|i: int| 0 <= i < less.len() implies #[trigger] less[i] != '/' by {
                    assert(name[i] == less[i]);
                }
            }
            lemma_last_name(front, less);
            if patterns::last_name(path) == name {
                assert(found =~= less) by {
                    assert(found.push(path.last()).drop_last() =~= found);
                }
                assert(name.last() == path.last());
                if front == less {
                    assert(path =~= name);
                } else {
                    let above = choose|above: Seq<char>| front == #[trigger] (above + "/"@ + less);
                    assert(path =~= front.push(path.last()));
                    assert(name =~= less.push(name.last()));
                    assert(path =~= above + "/"@ + name);
                }
            }
            if ends_with_name(path, name) {
                if path == name {
                    assert(front == less);
                } else {
                    let above = choose|above: Seq<char>| path == #[trigger] (above + "/"@ + name);
                    assert(path.last() == name.last());
                    assert(front =~= above + "/"@ + less);
                }
                assert(found.push(path.last()) =~= name);
            }
        }
    }
}

/// The line holds one plain name, as it is.
pub open spec fn names_one(name: Seq<char>) -> bool {
    name.len() > 0 && plain(name) && one_name(name) && name.last() != ' ' && name[0] != '#'
        && name[0] != '!'
}

/// A plain name speaks of every entry of that name, at whatever depth; with a slash behind it of
/// directories alone; and with a slash in front of it of that at the top alone.
pub proof fn law_plain_rule(name: Seq<char>, path: Seq<char>, is_dir: bool)
    requires
        names_one(name),
    ensures
        patterns::rule_matches(name, path, is_dir) <==> ends_with_name(path, name),
        patterns::rule_matches(name.push('/'), path, is_dir) <==> is_dir && ends_with_name(path, name),
        patterns::rule_matches(seq!['/'] + name, path, is_dir) <==> path == name,
        patterns::rule_matches(seq!['!'] + name, path, is_dir) <==> ends_with_name(path, name),
        patterns::rule_matches(name.push(' '), path, is_dir) <==> ends_with_name(path, name),
{
    lemma_last_name(path, name);
    lemma_suffix(true, name, patterns::last_name(path));
    lemma_suffix(true, name, path);
    assert(!name.contains('/'));
    assert(name[name.len() - 1] != '/');
    let dirs = name.push('/');
    assert(dirs.drop_last() =~= name);
    assert(dirs[0] == name[0]);
    let top = seq!['/'] + name;
    assert(top[0] == '/');
    assert(top.last() == name.last());
    assert(top.contains('/'));
    assert(top.skip(1) =~= name);
    let kept = seq!['!'] + name;
    assert(kept[0] == '!');
    assert(kept.last() == name.last());
    assert(kept.skip(1) =~= name);
    let spaced = name.push(' ');
    assert(spaced.drop_last() =~= name);
    assert(spaced[0] == name[0]);
    assert(!patterns::ends_escaping(name));
    assert(patterns::trimmed(name) == name);
    assert(patterns::trimmed(spaced) == name);
}

/// A rule keeps exactly if it begins with `!`.
pub proof fn law_kept_after_all(rules: Seq<Seq<char>>, line: Seq<char>, path: Seq<char>, is_dir: bool)
    ensures
        !patterns::rule_matches(line, path, is_dir) ==> patterns::left_out(
            rules.push(line),
            path,
            is_dir,
        ) == patterns::left_out(rules, path, is_dir),
        patterns::rule_matches(line, path, is_dir) ==> patterns::left_out(
            rules.push(line),
            path,
            is_dir,
        ) == (line[0] != '!'),
{
    assert(rules.push(line).drop_last() =~= rules);
    assert(rules.push(line).last() == line);
}

} // verus!
