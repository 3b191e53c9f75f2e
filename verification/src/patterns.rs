//! Patterns of names and paths.

use crate::text;
use vstd::prelude::*;

pub mod laws;

verus! {

/// The entries of a snapshot that are left out unless the configuration says otherwise.
pub const DEFAULT_IGNORE: &'static str = ".*\n*.md\nLICENSE*\nspec/\ntest/\ntests/\n";

/// The character that a class names next, and the rest: a backslash names what stands behind it.
pub open spec fn class_char(p: Seq<char>) -> (char, Seq<char>) {
    if p[0] == '\\' && p.len() >= 2 {
        (p[1], p.skip(2))
    } else {
        (p[0], p.skip(1))
    }
}

/// A class holds a range next: a character, `-`, and a character that does not end the class.
pub open spec fn is_range(after: Seq<char>) -> bool {
    after.len() >= 2 && after[0] == '-' && after[1] != ']'
}

/// What a class says of `c`, read behind its bracket and its mark: whether it names `c`, and what
/// follows the class; nothing if the class does not end.  A `]` in the first place is a member.
pub open spec fn class_rest(p: Seq<char>, first: bool, c: char, named: bool) -> Option<
    (bool, Seq<char>),
>
    decreases p.len(),
{
    if p.len() == 0 {
        None
    } else if p[0] == ']' && !first {
        Some((named, p.skip(1)))
    } else {
        let (low, after) = class_char(p);
        if is_range(after) {
            let (high, rest) = class_char(after.skip(1));
            class_rest(rest, false, c, named || (low <= c && c <= high))
        } else {
            class_rest(after, false, c, named || c == low)
        }
    }
}

/// The class is of the characters that it does not name.
pub open spec fn is_inverted(p: Seq<char>) -> bool {
    p.len() > 0 && (p[0] == '!' || p[0] == '^')
}

/// What a class says of `c`, read behind its bracket: whether `c` is of the class, and what
/// follows it.
pub open spec fn class_of(p: Seq<char>, c: char) -> Option<(bool, Seq<char>)> {
    let inverted = is_inverted(p);
    let members = if inverted {
        p.skip(1)
    } else {
        p
    };
    match class_rest(members, true, c, false) {
        Some((named, rest)) => Some((named != inverted, rest)),
        None => None,
    }
}

proof fn lemma_class_rest(p: Seq<char>, first: bool, c: char, named: bool)
    ensures
        class_rest(p, first, c, named) is Some ==> (class_rest(p, first, c, named)->0).1.len()
            < p.len(),
    decreases p.len(),
{
    if p.len() > 0 && !(p[0] == ']' && !first) {
        let (low, after) = class_char(p);
        if is_range(after) {
            let (high, rest) = class_char(after.skip(1));
            lemma_class_rest(rest, false, c, named || (low <= c && c <= high));
        } else {
            lemma_class_rest(after, false, c, named || c == low);
        }
    }
}

/// A class takes at least one character of the pattern.
pub proof fn lemma_class_of(p: Seq<char>, c: char)
    ensures
        class_of(p, c) is Some ==> (class_of(p, c)->0).1.len() < p.len(),
{
    lemma_class_rest(p, true, c, false);
    lemma_class_rest(p.skip(1), true, c, false);
}

/// Where the first slash of a path is, or where the path ends.
pub open spec fn first_slash(path: Seq<char>) -> nat
    decreases path.len(),
{
    if path.len() == 0 || path[0] == '/' {
        0
    } else {
        1 + first_slash(path.skip(1))
    }
}

/// The pattern begins with any number of directories.
pub open spec fn is_any_directories(p: Seq<char>) -> bool {
    p.len() >= 3 && p[0] == '*' && p[1] == '*' && p[2] == '/'
}

/// The pattern is all that is below.
pub open spec fn is_all_below(p: Seq<char>) -> bool {
    p.len() == 2 && p[0] == '*' && p[1] == '*'
}

/// The path matches the pattern; `start` says that the pattern stands behind a slash or at the
/// beginning.
///
/// `*` stands for any characters but slashes, `?` for one, `[..]` for one of a class, and a
/// backslash takes from what follows it its meaning.  Between slashes, `**` stands for any number
/// of directories, and behind the last slash for all that is below.
pub open spec fn glob_from(start: bool, p: Seq<char>, path: Seq<char>) -> bool
    decreases p.len() + path.len(),
{
    if p.len() == 0 {
        path.len() == 0
    } else if start && is_all_below(p) {
        path.len() > 0
    } else if start && is_any_directories(p) {
        glob_from(true, p.skip(3), path) || (first_slash(path) < path.len() && glob_from(
            true,
            p,
            path.skip(first_slash(path) as int + 1),
        ))
    } else if p[0] == '*' {
        glob_from(false, p.skip(1), path) || (path.len() > 0 && path[0] != '/' && glob_from(
            false,
            p,
            path.skip(1),
        ))
    } else if path.len() == 0 {
        false
    } else if p[0] == '?' {
        path[0] != '/' && glob_from(false, p.skip(1), path.skip(1))
    } else if p[0] == '[' {
        proof {
            lemma_class_of(p.skip(1), path[0]);
        }
        match class_of(p.skip(1), path[0]) {
            Some((holds, rest)) => holds && path[0] != '/' && glob_from(
                false,
                rest,
                path.skip(1),
            ),
            None => false,
        }
    } else if p[0] == '\\' {
        p.len() >= 2 && p[1] == path[0] && glob_from(p[1] == '/', p.skip(2), path.skip(1))
    } else {
        p[0] == path[0] && glob_from(p[0] == '/', p.skip(1), path.skip(1))
    }
}

/// The path matches the pattern.
pub open spec fn glob(pattern: Seq<char>, path: Seq<char>) -> bool {
    glob_from(true, pattern, path)
}

fn read_class_char(p: &Vec<char>, i: usize) -> (read: (char, usize))
    requires
        i < p@.len(),
    ensures
        i < read.1 <= p@.len(),
        (read.0, p@.skip(read.1 as int)) == class_char(p@.skip(i as int)),
{
    let n: usize = p.len();
    proof {
        assert(p@.skip(i as int).skip(1) =~= p@.skip(i as int + 1));
        if i + 2 <= p@.len() {
            assert(p@.skip(i as int).skip(2) =~= p@.skip(i as int + 2));
        }
    }
    if p[i] == '\\' && n - i >= 2 {
        (p[i + 1], i + 2)
    } else {
        (p[i], i + 1)
    }
}

fn read_class_rest(p: &Vec<char>, i: usize, first: bool, c: char, named: bool) -> (read: Option<
    (bool, usize),
>)
    requires
        i <= p@.len(),
    ensures
        match read {
            Some((holds, at)) => i < at <= p@.len() && class_rest(
                p@.skip(i as int),
                first,
                c,
                named,
            ) == Some((holds, p@.skip(at as int))),
            None => class_rest(p@.skip(i as int), first, c, named) is None,
        },
    decreases p@.len() - i,
{
    if i == p.len() {
        return None;
    }
    assert(p@.skip(i as int).skip(1) =~= p@.skip(i as int + 1));
    if p[i] == ']' && !first {
        return Some((named, i + 1));
    }
    let (low, after) = read_class_char(p, i);
    if p.len() - after >= 2 && p[after] == '-' && p[after + 1] != ']' {
        assert(p@.skip(after as int).skip(1) =~= p@.skip(after as int + 1));
        let (high, rest) = read_class_char(p, after + 1);
        read_class_rest(p, rest, false, c, named || (low <= c && c <= high))
    } else {
        read_class_rest(p, after, false, c, named || c == low)
    }
}

fn read_class(p: &Vec<char>, i: usize, c: char) -> (read: Option<(bool, usize)>)
    requires
        i <= p@.len(),
    ensures
        match read {
            Some((holds, at)) => i < at <= p@.len() && class_of(p@.skip(i as int), c) == Some(
                (holds, p@.skip(at as int)),
            ),
            None => class_of(p@.skip(i as int), c) is None,
        },
{
    let inverted = i < p.len() && (p[i] == '!' || p[i] == '^');
    let members: usize = if inverted {
        i + 1
    } else {
        i
    };
    assert(inverted ==> p@.skip(i as int).skip(1) =~= p@.skip(i as int + 1));
    match read_class_rest(p, members, true, c, false) {
        Some((named, at)) => Some((named != inverted, at)),
        None => None,
    }
}

fn find_slash(path: &Vec<char>, j: usize) -> (at: usize)
    requires
        j <= path@.len(),
    ensures
        j <= at <= path@.len(),
        at - j == first_slash(path@.skip(j as int)),
{
    let mut at: usize = j;
    while at < path.len() && path[at] != '/'
        invariant
            j <= at <= path@.len(),
            first_slash(path@.skip(j as int)) == at - j + first_slash(path@.skip(at as int)),
        decreases path@.len() - at,
    {
        assert(path@.skip(at as int).skip(1) =~= path@.skip(at as int + 1));
        at = at + 1;
    }
    at
}

fn matches_from(start: bool, p: &Vec<char>, path: &Vec<char>, i: usize, j: usize) -> (matched: bool)
    requires
        i <= p@.len(),
        j <= path@.len(),
    ensures
        matched == glob_from(start, p@.skip(i as int), path@.skip(j as int)),
    decreases p@.len() - i + path@.len() - j,
{
    let ghost here = p@.skip(i as int);
    let ghost left = path@.skip(j as int);
    if i == p.len() {
        return j == path.len();
    }
    proof {
        assert(here[0] == p@[i as int]);
        assert(here.skip(1) =~= p@.skip(i as int + 1));
        if i + 2 <= p@.len() {
            assert(here[1] == p@[i as int + 1]);
            assert(here.skip(2) =~= p@.skip(i as int + 2));
        }
        if j < path@.len() {
            assert(left[0] == path@[j as int]);
            assert(left.skip(1) =~= path@.skip(j as int + 1));
        }
    }
    let n: usize = p.len() - i;
    if start && n >= 2 && p[i] == '*' && p[i + 1] == '*' {
        if n == 2 {
            return j < path.len();
        }
        if p[i + 2] == '/' {
            let at: usize = find_slash(path, j);
            proof {
                assert(here.skip(3) =~= p@.skip(i as int + 3));
                if at < path@.len() {
                    assert(left.skip(at - j + 1) =~= path@.skip(at as int + 1));
                }
            }
            return matches_from(true, p, path, i + 3, j) || (at < path.len() && matches_from(
                true,
                p,
                path,
                i,
                at + 1,
            ));
        }
    }
    if p[i] == '*' {
        matches_from(false, p, path, i + 1, j) || (j < path.len() && path[j] != '/'
            && matches_from(false, p, path, i, j + 1))
    } else if j == path.len() {
        false
    } else if p[i] == '?' {
        path[j] != '/' && matches_from(false, p, path, i + 1, j + 1)
    } else if p[i] == '[' {
        match read_class(p, i + 1, path[j]) {
            Some((holds, rest)) => holds && path[j] != '/' && matches_from(
                false,
                p,
                path,
                rest,
                j + 1,
            ),
            None => false,
        }
    } else if p[i] == '\\' {
        n >= 2 && p[i + 1] == path[j] && matches_from(p[i + 1] == '/', p, path, i + 2, j + 1)
    } else {
        p[i] == path[j] && matches_from(p[i] == '/', p, path, i + 1, j + 1)
    }
}

/// Whether the path matches the pattern.
pub fn name_matches(pattern: &str, name: &str) -> (matched: bool)
    ensures
        matched == glob(pattern@, name@),
{
    let p = text::chars_of(pattern);
    let n = text::chars_of(name);
    assert(p@.skip(0) =~= p@);
    assert(n@.skip(0) =~= n@);
    matches_from(true, &p, &n, 0, 0)
}

/// The character stands for itself in a pattern.
pub open spec fn is_plain(c: char) -> bool {
    c != '*' && c != '?' && c != '[' && c != '\\'
}

proof fn lemma_plain_pattern(start: bool, pattern: Seq<char>, name: Seq<char>)
    requires
        forall|i: int| 0 <= i < pattern.len() ==> is_plain(#[trigger] pattern[i]),
    ensures
        glob_from(start, pattern, name) <==> pattern == name,
    decreases pattern.len(),
{
    if pattern.len() == 0 {
        assert(name.len() == 0 ==> pattern =~= name);
    } else {
        assert(is_plain(pattern[0]));
        if name.len() > 0 {
            lemma_plain_pattern(pattern[0] == '/', pattern.skip(1), name.skip(1));
            if glob_from(start, pattern, name) {
                assert(pattern =~= seq![pattern[0]] + pattern.skip(1));
                assert(name =~= seq![name[0]] + name.skip(1));
            }
        }
    }
}

/// A pattern in which every character stands for itself matches itself alone.
pub proof fn law_plain_pattern(pattern: Seq<char>, name: Seq<char>)
    requires
        forall|i: int| 0 <= i < pattern.len() ==> is_plain(#[trigger] pattern[i]),
    ensures
        glob(pattern, name) <==> pattern == name,
{
    lemma_plain_pattern(true, pattern, name);
}

/// The text ends with a backslash that takes from what follows it its meaning.
pub open spec fn ends_escaping(s: Seq<char>) -> bool
    decreases s.len(),
{
    s.len() > 0 && s.last() == '\\' && !ends_escaping(s.drop_last())
}

/// A line without the spaces at its end; one behind a backslash stays.
pub open spec fn trimmed(line: Seq<char>) -> Seq<char>
    decreases line.len(),
{
    if line.len() > 0 && line.last() == ' ' && !ends_escaping(line.drop_last()) {
        trimmed(line.drop_last())
    } else {
        line
    }
}

/// Empty lines and comments are no rules.
pub open spec fn is_rule(line: Seq<char>) -> bool {
    trimmed(line).len() > 0 && line[0] != '#'
}

/// A rule says what to leave out, or with `!` in front what to keep after all.
pub open spec fn is_negated(line: Seq<char>) -> bool {
    line.len() > 0 && line[0] == '!'
}

/// A rule without what says that it keeps.
pub open spec fn body_of(line: Seq<char>) -> Seq<char> {
    if is_negated(line) {
        trimmed(line).skip(1)
    } else {
        trimmed(line)
    }
}

/// The rule speaks of directories alone.
pub open spec fn of_directories(body: Seq<char>) -> bool {
    body.len() > 0 && body.last() == '/'
}

/// A rule without what says that it speaks of directories.
pub open spec fn pattern_of(body: Seq<char>) -> Seq<char> {
    if of_directories(body) {
        body.drop_last()
    } else {
        body
    }
}

/// A pattern without what anchors it.
pub open spec fn without_anchor(pattern: Seq<char>) -> Seq<char> {
    if pattern.len() > 0 && pattern[0] == '/' {
        pattern.skip(1)
    } else {
        pattern
    }
}

/// The last name of a path.
pub open spec fn last_name(path: Seq<char>) -> Seq<char>
    decreases path.len(),
{
    if path.len() == 0 || path.last() == '/' {
        Seq::empty()
    } else {
        last_name(path.drop_last()).push(path.last())
    }
}

/// The rule speaks of the entry at the path: one with a slash in it of the whole path, any other
/// of its last name.
pub open spec fn rule_matches(line: Seq<char>, path: Seq<char>, is_dir: bool) -> bool {
    let body = body_of(line);
    let pattern = pattern_of(body);
    &&& is_rule(line)
    &&& of_directories(body) ==> is_dir
    &&& if pattern.contains('/') {
        glob(without_anchor(pattern), path)
    } else {
        glob(pattern, last_name(path))
    }
}

/// The entry is left out: the last rule that speaks of it decides.
pub open spec fn left_out(rules: Seq<Seq<char>>, path: Seq<char>, is_dir: bool) -> bool
    decreases rules.len(),
{
    if rules.len() == 0 {
        false
    } else if rule_matches(rules.last(), path, is_dir) {
        !is_negated(rules.last())
    } else {
        left_out(rules.drop_last(), path, is_dir)
    }
}

fn escapes(chars: &Vec<char>, end: usize) -> (escaped: bool)
    requires
        end <= chars@.len(),
    ensures
        escaped == ends_escaping(chars@.take(end as int)),
    decreases end,
{
    if end == 0 || chars[end - 1] != '\\' {
        return false;
    }
    assert(chars@.take(end as int).drop_last() =~= chars@.take(end - 1));
    !escapes(chars, end - 1)
}

fn trimmed_len(chars: &Vec<char>) -> (end: usize)
    ensures
        end <= chars@.len(),
        chars@.take(end as int) == trimmed(chars@),
{
    let mut end: usize = chars.len();
    assert(chars@.take(end as int) =~= chars@);
    while end > 0 && chars[end - 1] == ' ' && !escapes(chars, end - 1)
        invariant
            end <= chars@.len(),
            trimmed(chars@.take(end as int)) == trimmed(chars@),
        decreases end,
    {
        assert(chars@.take(end as int).drop_last() =~= chars@.take(end - 1));
        end = end - 1;
    }
    proof {
        if end > 0 {
            assert(chars@.take(end as int).drop_last() =~= chars@.take(end - 1));
        }
    }
    end
}

fn read_last_name(path: &str) -> (name: String)
    ensures
        name@ == last_name(path@),
{
    let chars = text::chars_of(path);
    let mut k: usize = chars.len();
    proof {
        assert(chars@.take(k as int) =~= chars@);
        assert(chars@.subrange(k as int, chars@.len() as int) =~= Seq::<char>::empty());
        assert(last_name(chars@.take(k as int)) + chars@.subrange(k as int, chars@.len() as int)
            =~= last_name(chars@));
    }
    while k > 0 && chars[k - 1] != '/'
        invariant
            k <= chars@.len(),
            last_name(chars@.take(k as int)) + chars@.subrange(k as int, chars@.len() as int)
                == last_name(chars@),
        decreases k,
    {
        proof {
            let now = chars@.take(k as int);
            assert(now.drop_last() =~= chars@.take(k - 1));
            assert(last_name(chars@.take(k - 1)) + chars@.subrange(k - 1, chars@.len() as int)
                =~= last_name(now) + chars@.subrange(k as int, chars@.len() as int));
        }
        k = k - 1;
    }
    let name = text::text_between(&chars, k, chars.len());
    proof {
        assert(last_name(chars@.take(k as int)) =~= Seq::<char>::empty());
        assert(name@ =~= last_name(path@));
    }
    name
}

fn has_slash(chars: &Vec<char>, from: usize, to: usize) -> (found: bool)
    requires
        from <= to <= chars@.len(),
    ensures
        found == chars@.subrange(from as int, to as int).contains('/'),
{
    let ghost part = chars@.subrange(from as int, to as int);
    let mut i: usize = from;
    while i < to
        invariant
            from <= i <= to,
            to <= chars@.len(),
            part == chars@.subrange(from as int, to as int),
            forall|k: int| 0 <= k < i - from ==> #[trigger] part[k] != '/',
        decreases to - i,
    {
        if chars[i] == '/' {
            assert(part[i - from] == '/');
            return true;
        }
        assert(part[i - from] != '/');
        i = i + 1;
    }
    false
}

fn matches_rule(line: &str, path: &str, is_dir: bool) -> (matched: bool)
    ensures
        matched == rule_matches(line@, path@, is_dir),
{
    let chars = text::chars_of(line);
    let end: usize = trimmed_len(&chars);
    if end == 0 || chars[0] == '#' {
        return false;
    }
    let start: usize = if chars[0] == '!' {
        1
    } else {
        0
    };
    let ghost body = body_of(line@);
    assert(body =~= chars@.subrange(start as int, end as int));
    let dirs = start < end && chars[end - 1] == '/';
    assert(dirs == of_directories(body));
    if dirs && !is_dir {
        return false;
    }
    let to: usize = if dirs {
        end - 1
    } else {
        end
    };
    let ghost pattern = pattern_of(body);
    assert(pattern =~= chars@.subrange(start as int, to as int));
    if has_slash(&chars, start, to) {
        let from: usize = if chars[start] == '/' {
            start + 1
        } else {
            start
        };
        let rest = text::text_between(&chars, from, to);
        assert(rest@ =~= without_anchor(pattern));
        name_matches(rest.as_str(), path)
    } else {
        let rest = text::text_between(&chars, start, to);
        assert(rest@ =~= pattern);
        name_matches(rest.as_str(), read_last_name(path).as_str())
    }
}

/// Whether the entry at the path is left out by the rules.
pub fn is_ignored(rules: &Vec<String>, path: &str, is_dir: bool) -> (ignored: bool)
    ensures
        ignored == left_out(text::strings(rules@), path@, is_dir),
{
    let ghost all = text::strings(rules@);
    let mut n: usize = rules.len();
    assert(all.take(n as int) =~= all);
    while n > 0
        invariant
            n <= rules@.len(),
            all == text::strings(rules@),
            left_out(all, path@, is_dir) == left_out(all.take(n as int), path@, is_dir),
        decreases n,
    {
        let ghost now = all.take(n as int);
        proof {
            assert(now.last() == rules@[n - 1]@);
            assert(now.drop_last() =~= all.take(n - 1));
        }
        if matches_rule(rules[n - 1].as_str(), path, is_dir) {
            let chars = text::chars_of(rules[n - 1].as_str());
            return chars[0] != '!';
        }
        n = n - 1;
    }
    false
}

} // verus!
