//! The identity of repositories.

use crate::config::RepoSource;
use crate::text;
use vstd::prelude::*;

pub mod laws;
pub mod names;

verus! {

/// The place of the first such character; the length if there is none.
pub open spec fn first_index(s: Seq<char>, c: char) -> int
    decreases s.len(),
{
    if s.len() == 0 {
        0
    } else if s[0] == c {
        0
    } else {
        1 + first_index(s.skip(1), c)
    }
}

/// The place behind the last such character; zero if there is none.
pub open spec fn behind_last(s: Seq<char>, c: char) -> int
    decreases s.len(),
{
    if s.len() == 0 {
        0
    } else if s.last() == c {
        s.len() as int
    } else {
        behind_last(s.drop_last(), c)
    }
}

/// What follows `://`, if that is anywhere in the text.
pub open spec fn after_scheme(s: Seq<char>) -> Option<Seq<char>>
    decreases s.len(),
{
    if s.len() < 3 {
        None
    } else if s.take(3) == "://"@ {
        Some(s.skip(3))
    } else {
        after_scheme(s.skip(1))
    }
}

/// What follows the scheme, if there is one.  A scheme comes before the first slash.
pub open spec fn behind_scheme(s: Seq<char>) -> Option<Seq<char>> {
    let slash = first_index(s, '/');
    if 0 < slash && slash + 1 < s.len() && s[slash - 1] == ':' && s[slash + 1] == '/' {
        Some(s.skip(slash + 2))
    } else {
        None
    }
}

/// A letter in lower case.
pub open spec fn lower_char(c: char) -> char {
    if 'A' <= c && c <= 'Z' {
        ((c as u32) + 32) as char
    } else {
        c
    }
}

/// A name in lower case.
pub open spec fn lower(s: Seq<char>) -> Seq<char> {
    s.map_values(|c: char| lower_char(c))
}

/// A port that goes without saying.
pub open spec fn default_port(port: Seq<char>) -> bool {
    port.len() == 0 || port == "80"@ || port == "443"@ || port == "22"@ || port == "9418"@
}

/// A path without `.git` at its end, however often it is there.
pub open spec fn without_git(path: Seq<char>) -> Seq<char>
    decreases path.len(),
{
    if path.len() >= 4 && ".git"@.is_suffix_of(path) {
        without_git(path.take(path.len() - 4))
    } else {
        path
    }
}

/// A host with its port, unless that goes without saying.
pub open spec fn host_text(hostport: Seq<char>) -> Seq<char>
    decreases hostport.len(),
{
    let behind = behind_last(hostport, ':');
    if 0 < behind <= hostport.len() {
        let port = hostport.skip(behind);
        if default_port(port) {
            host_text(hostport.take(behind - 1))
        } else {
            lower(hostport.take(behind - 1)) + ":"@ + port
        }
    } else {
        lower(hostport)
    }
}

/// The key names an owner and a repository at GitHub.
pub open spec fn is_shorthand(key: Seq<char>) -> bool {
    let slash = first_index(key, '/');
    slash < key.len() && first_index(key.skip(slash + 1), '/') == key.len() - slash - 1
        && !key.take(slash).contains('.') && !key.take(slash).contains(':')
}

/// The identity of what lies at a host: without the user, the host in lower case, without a port
/// that goes without saying and without `.git` at the end.
pub open spec fn located(rest: Seq<char>) -> Seq<char> {
    let slash = first_index(rest, '/');
    let authority = rest.take(slash);
    host_text(authority.skip(behind_last(authority, '@'))) + without_git(rest.skip(slash))
}

/// The identity of the repository that a key of a lock file names.
pub open spec fn canonical_key(key: Seq<char>) -> Seq<char> {
    match behind_scheme(key) {
        Some(rest) => located(rest),
        None => if is_shorthand(key) {
            "github.com/"@ + without_git(key)
        } else {
            located(key)
        },
    }
}

fn find_first(chars: &Vec<char>, c: char, from: usize) -> (at: usize)
    requires
        from <= chars@.len(),
    ensures
        from <= at <= chars@.len(),
        at == from + first_index(chars@.skip(from as int), c),
{
    let mut at: usize = from;
    while at < chars.len()
        invariant
            from <= at <= chars@.len(),
            from + first_index(chars@.skip(from as int), c) == at + first_index(
                chars@.skip(at as int),
                c,
            ),
        decreases chars@.len() - at,
    {
        assert(chars@.skip(at as int)[0] == chars@[at as int]);
        if chars[at] == c {
            return at;
        }
        assert(chars@.skip(at as int).skip(1) =~= chars@.skip(at as int + 1));
        at = at + 1;
    }
    assert(chars@.skip(at as int).len() == 0);
    at
}

fn find_behind_last(chars: &Vec<char>, c: char, from: usize, to: usize) -> (at: usize)
    requires
        from <= to <= chars@.len(),
    ensures
        from <= at <= to,
        at == from + behind_last(chars@.subrange(from as int, to as int), c),
{
    let ghost all = chars@.subrange(from as int, to as int);
    let mut at: usize = to;
    while at > from
        invariant
            from <= at <= to,
            to <= chars@.len(),
            all == chars@.subrange(from as int, to as int),
            behind_last(all, c) == behind_last(chars@.subrange(from as int, at as int), c),
        decreases at,
    {
        let ghost now = chars@.subrange(from as int, at as int);
        assert(now.last() == chars@[at - 1]);
        if chars[at - 1] == c {
            return at;
        }
        assert(now.drop_last() =~= chars@.subrange(from as int, at - 1));
        at = at - 1;
    }
    assert(chars@.subrange(from as int, at as int).len() == 0);
    at
}

/// Where what follows `://` begins.
fn find_scheme(chars: &Vec<char>) -> (found: Option<usize>)
    ensures
        match found {
            Some(at) => at <= chars@.len() && after_scheme(chars@) == Some(chars@.skip(at as int)),
            None => after_scheme(chars@) is None,
        },
{
    let n: usize = chars.len();
    let mut i: usize = 0;
    proof {
        reveal_strlit("://");
        assert(chars@.skip(0) =~= chars@);
    }
    while n - i >= 3
        invariant
            i <= n,
            n == chars@.len(),
            "://"@ =~= seq![':', '/', '/'],
            after_scheme(chars@) == after_scheme(chars@.skip(i as int)),
        decreases n - i,
    {
        let ghost now = chars@.skip(i as int);
        assert(now.take(3) =~= seq![chars@[i as int], chars@[i as int + 1], chars@[i as int + 2]]);
        if chars[i] == ':' && chars[i + 1] == '/' && chars[i + 2] == '/' {
            assert(now.take(3) =~= "://"@);
            assert(now.skip(3) =~= chars@.skip(i as int + 3));
            return Some(i + 3);
        }
        proof {
            if now.take(3) == "://"@ {
                assert(now.take(3)[0] == ':' && now.take(3)[1] == '/' && now.take(3)[2] == '/');
            }
            assert(now.skip(1) =~= chars@.skip(i as int + 1));
        }
        i = i + 1;
    }
    None
}

/// Where what follows the scheme begins.
fn find_behind_scheme(chars: &Vec<char>) -> (found: Option<usize>)
    ensures
        match found {
            Some(at) => 3 <= at <= chars@.len() && behind_scheme(chars@) == Some(
                chars@.skip(at as int),
            ),
            None => behind_scheme(chars@) is None,
        },
{
    assert(chars@.skip(0) =~= chars@);
    let slash = find_first(chars, '/', 0);
    if 0 < slash && slash < chars.len() - 1 && chars[slash - 1] == ':' && chars[slash + 1] == '/' {
        Some(slash + 2)
    } else {
        None
    }
}

fn push_lower(out: &mut String, chars: &Vec<char>, from: usize, to: usize)
    requires
        from <= to <= chars@.len(),
    ensures
        final(out)@ == old(out)@ + lower(chars@.subrange(from as int, to as int)),
{
    let ghost before = out@;
    let ghost all = lower(chars@.subrange(from as int, to as int));
    let mut i: usize = from;
    assert(before + all.take(0) =~= before);
    while i < to
        invariant
            from <= i <= to,
            to <= chars@.len(),
            all == lower(chars@.subrange(from as int, to as int)),
            out@ == before + all.take(i - from),
        decreases to - i,
    {
        let c: char = chars[i];
        let d: char = if 'A' <= c && c <= 'Z' {
            ((c as u8) + 32u8) as char
        } else {
            c
        };
        assert(d == lower_char(c));
        assert(all[i - from] == d);
        text::push_char(out, d);
        assert(out@ =~= before + all.take(i - from + 1));
        i = i + 1;
    }
    assert(all.take(to - from) =~= all);
}

fn is_default_port(port: &str) -> (is: bool)
    ensures
        is == default_port(port@),
{
    proof {
        reveal_strlit("");
        if port@.len() == 0 {
            assert(port@ =~= ""@);
        }
    }
    text::same(port, "") || text::same(port, "80") || text::same(port, "443") || text::same(
        port,
        "22",
    ) || text::same(port, "9418")
}

/// Appends a path without `.git` at its end.
fn push_without_git(out: &mut String, path: &str)
    ensures
        final(out)@ == old(out)@ + without_git(path@),
{
    let chars = text::chars_of(path);
    let mut n: usize = chars.len();
    proof {
        reveal_strlit(".git");
        assert(chars@.take(n as int) =~= path@);
    }
    while n >= 4 && chars[n - 4] == '.' && chars[n - 3] == 'g' && chars[n - 2] == 'i' && chars[n
        - 1] == 't'
        invariant
            n <= chars@.len(),
            ".git"@ =~= seq!['.', 'g', 'i', 't'],
            without_git(path@) == without_git(chars@.take(n as int)),
        ensures
            n <= chars@.len(),
            without_git(path@) == chars@.take(n as int),
        decreases n,
    {
        let ghost now = chars@.take(n as int);
        assert(now.subrange(n - 4, n as int) =~= ".git"@);
        assert(now.take(n - 4) =~= chars@.take(n - 4));
        n = n - 4;
    }
    let kept = text::text_between(&chars, 0, n);
    assert(kept@ =~= chars@.take(n as int));
    out.append(kept.as_str());
}

/// Appends a host with its port, unless that goes without saying.
fn push_host(out: &mut String, chars: &Vec<char>, from: usize, to: usize)
    requires
        from <= to <= chars@.len(),
    ensures
        final(out)@ == old(out)@ + host_text(chars@.subrange(from as int, to as int)),
    decreases to - from,
{
    let ghost before = out@;
    let ghost all = chars@.subrange(from as int, to as int);
    let colon = find_behind_last(chars, ':', from, to);
    if colon == from {
        push_lower(out, chars, from, to);
        return ;
    }
    let port = text::text_between(chars, colon, to);
    assert(port@ =~= all.skip(colon - from));
    assert(all.take(colon - from - 1) =~= chars@.subrange(from as int, colon - 1));
    if is_default_port(port.as_str()) {
        push_host(out, chars, from, colon - 1);
    } else {
        push_lower(out, chars, from, colon - 1);
        out.append(":");
        out.append(port.as_str());
        assert(out@ =~= before + host_text(all));
    }
}

fn locate(chars: &Vec<char>, from: usize) -> (key: String)
    requires
        from <= chars@.len(),
    ensures
        key@ == located(chars@.skip(from as int)),
{
    let ghost rest = chars@.skip(from as int);
    let n: usize = chars.len();
    let slash = find_first(chars, '/', from);
    let ghost authority = rest.take(slash - from);
    assert(chars@.subrange(from as int, slash as int) =~= authority);
    let start = find_behind_last(chars, '@', from, slash);
    let ghost hostport = authority.skip(start - from);
    assert(chars@.subrange(start as int, slash as int) =~= hostport);
    let mut host = String::new();
    push_host(&mut host, chars, start, slash);
    assert(host@ =~= host_text(hostport));
    let rest_text = text::text_between(chars, slash, n);
    assert(rest_text@ =~= rest.skip(slash - from));
    let mut path = String::new();
    push_without_git(&mut path, rest_text.as_str());
    assert(path@ =~= without_git(rest.skip(slash - from)));
    host.concat(path.as_str())
}

fn shorthand(chars: &Vec<char>) -> (is: bool)
    ensures
        is == is_shorthand(chars@),
{
    let n: usize = chars.len();
    assert(chars@.skip(0) =~= chars@);
    let slash = find_first(chars, '/', 0);
    if slash >= n {
        return false;
    }
    let second = find_first(chars, '/', slash + 1);
    if second != n {
        return false;
    }
    let ghost owner = chars@.take(slash as int);
    let mut i: usize = 0;
    while i < slash
        invariant
            i <= slash,
            slash < chars@.len(),
            slash == first_index(chars@, '/'),
            owner == chars@.take(slash as int),
            forall|k: int| 0 <= k < i ==> #[trigger] owner[k] != '.' && owner[k] != ':',
        decreases slash - i,
    {
        assert(owner[i as int] == chars@[i as int]);
        if chars[i] == '.' || chars[i] == ':' {
            assert(owner.contains(owner[i as int]));
            return false;
        }
        i = i + 1;
    }
    true
}

/// The identity of the repository that a key of a lock file names: its host and path.
pub fn canonicalize_lock_key(key: &str) -> (canonical: String)
    ensures
        canonical@ == canonical_key(key@),
{
    let chars = text::chars_of(key);
    match find_behind_scheme(&chars) {
        Some(at) => locate(&chars, at),
        None => {
            if shorthand(&chars) {
                let mut canonical = String::from_str("github.com/");
                push_without_git(&mut canonical, key);
                canonical
            } else {
                assert(chars@.skip(0) =~= chars@);
                locate(&chars, 0)
            }
        },
    }
}

/// The character is not in the text.
pub open spec fn lacks(s: Seq<char>, c: char) -> bool {
    forall|i: int| 0 <= i < s.len() ==> #[trigger] s[i] != c
}

proof fn lemma_first_index(s: Seq<char>, c: char, rest: Seq<char>)
    requires
        lacks(s, c),
    ensures
        first_index(s + seq![c] + rest, c) == s.len(),
    decreases s.len(),
{
    let all = s + seq![c] + rest;
    if s.len() > 0 {
        assert(all[0] == s[0]);
        assert(all.skip(1) =~= s.skip(1) + seq![c] + rest);
        lemma_first_index(s.skip(1), c, rest);
    } else {
        assert(all[0] == c);
    }
}

proof fn lemma_behind_last(front: Seq<char>, s: Seq<char>, c: char)
    requires
        lacks(s, c),
    ensures
        behind_last(front + s, c) == behind_last(front, c),
    decreases s.len(),
{
    let all = front + s;
    if s.len() > 0 {
        assert(all.last() == s.last());
        assert(all.drop_last() =~= front + s.drop_last());
        lemma_behind_last(front, s.drop_last(), c);
    } else {
        assert(all =~= front);
    }
}

proof fn lemma_after_scheme(scheme: Seq<char>, rest: Seq<char>)
    requires
        lacks(scheme, ':'),
    ensures
        after_scheme(scheme + "://"@ + rest) == Some(rest),
    decreases scheme.len(),
{
    reveal_strlit("://");
    let all = scheme + "://"@ + rest;
    if scheme.len() > 0 {
        assert(all[0] == scheme[0]);
        assert(all.take(3)[0] == scheme[0]);
        assert(all.take(3) != "://"@) by {
            assert("://"@[0] == ':');
        }
        assert(all.skip(1) =~= scheme.skip(1) + "://"@ + rest);
        lemma_after_scheme(scheme.skip(1), rest);
    } else {
        assert(all.take(3) =~= "://"@);
        assert(all.skip(3) =~= rest);
    }
}

proof fn lemma_behind_scheme(scheme: Seq<char>, rest: Seq<char>)
    requires
        lacks(scheme, '/'),
    ensures
        behind_scheme(scheme + "://"@ + rest) == Some(rest),
{
    reveal_strlit("://");
    let all = scheme + "://"@ + rest;
    let head = scheme + seq![':'];
    assert(all =~= head + seq!['/'] + (seq!['/'] + rest));
    lemma_first_index(head, '/', seq!['/'] + rest);
    assert(all[head.len() - 1] == ':');
    assert(all[head.len() as int + 1] == '/');
    assert(all.skip(head.len() as int + 2) =~= rest);
}

/// All URLs of a repository name one repository: neither the scheme, nor a user, nor a port that
/// goes without saying, nor `.git` at the end makes a difference.
pub proof fn law_one_identity(
    scheme: Seq<char>,
    user: Seq<char>,
    host: Seq<char>,
    port: Seq<char>,
    path: Seq<char>,
)
    requires
        lacks(scheme, '/'),
        lacks(user, '/'),
        lacks(host, '/'),
        lacks(host, '@'),
        lacks(host, ':'),
        default_port(port),
        lacks(port, '/'),
        lacks(port, '@'),
        lacks(port, ':'),
        !".git"@.is_suffix_of("/"@ + path),
    ensures
        canonical_key(scheme + "://"@ + host + "/"@ + path) == lower(host) + "/"@ + path,
        canonical_key(scheme + "://"@ + host + "/"@ + path + ".git"@) == lower(host) + "/"@ + path,
        canonical_key(scheme + "://"@ + user + "@"@ + host + "/"@ + path + ".git"@) == lower(host)
            + "/"@ + path,
        canonical_key(scheme + "://"@ + user + "@"@ + host + ":"@ + port + "/"@ + path)
            == lower(host) + "/"@ + path,
{
    let none = Seq::<char>::empty();
    lemma_one_url(scheme, none, host, none, path, none);
    lemma_one_url(scheme, none, host, none, path, ".git"@);
    lemma_one_url(scheme, user + "@"@, host, none, path, ".git"@);
    lemma_one_url(scheme, user + "@"@, host, ":"@ + port, path, none);
    reveal_strlit("@");
    reveal_strlit(":");
    assert((":"@ + port).skip(1) =~= port);
    assert(lower(host) + none + ("/"@ + path) =~= lower(host) + "/"@ + path);
    assert(scheme + "://"@ + none + host + none + "/"@ + path + none =~= scheme + "://"@ + host
        + "/"@ + path);
    assert(scheme + "://"@ + none + host + none + "/"@ + path + ".git"@ =~= scheme + "://"@ + host
        + "/"@ + path + ".git"@);
    assert(scheme + "://"@ + (user + "@"@) + host + none + "/"@ + path + ".git"@ =~= scheme
        + "://"@ + user + "@"@ + host + "/"@ + path + ".git"@);
    assert(scheme + "://"@ + (user + "@"@) + host + (":"@ + port) + "/"@ + path + none =~= scheme
        + "://"@ + user + "@"@ + host + ":"@ + port + "/"@ + path);
}

/// The identity that a URL gives, with an optional user, an optional port and an optional `.git`.
proof fn lemma_one_url(
    scheme: Seq<char>,
    user: Seq<char>,
    host: Seq<char>,
    port: Seq<char>,
    path: Seq<char>,
    git: Seq<char>,
)
    requires
        lacks(scheme, '/'),
        user.len() == 0 || exists|name: Seq<char>| #[trigger] lacks(name, '/') && user == name
            + "@"@,
        lacks(host, '/'),
        lacks(host, '@'),
        lacks(host, ':'),
        port.len() == 0 || exists|number: Seq<char>| #[trigger]
            lacks(number, '/') && lacks(number, '@') && lacks(number, ':') && port == ":"@ + number,
        git.len() == 0 || git == ".git"@,
        !".git"@.is_suffix_of("/"@ + path),
    ensures
        canonical_key(scheme + "://"@ + user + host + port + "/"@ + path + git) == lower(host) + (
        if port.len() == 0 || default_port(port.skip(1)) {
            Seq::empty()
        } else {
            port
        }) + ("/"@ + path),
{
    reveal_strlit("/");
    reveal_strlit("@");
    reveal_strlit(":");
    let tail = "/"@ + path;
    if user.len() > 0 {
        let name = choose|name: Seq<char>| #[trigger] lacks(name, '/') && user == name + "@"@;
        assert(user.drop_last() =~= name);
        assert(user.last() == '@');
    }
    if port.len() > 0 {
        let number = choose|number: Seq<char>| #[trigger]
            lacks(number, '/') && lacks(number, '@') && lacks(number, ':') && port == ":"@ + number;
        assert(port.skip(1) =~= number);
        assert(port[0] == ':');
    }
    let rest = user + host + port + (tail + git);
    lemma_located(user, host, port, tail + git);
    lemma_behind_scheme(scheme, rest);
    assert(scheme + "://"@ + user + host + port + "/"@ + path + git =~= scheme + "://"@ + rest);
    lemma_no_git(tail);
    lemma_git_suffix(tail);
    if git.len() == 0 {
        assert(tail + git =~= tail);
    }
}

proof fn lemma_git_suffix(tail: Seq<char>)
    ensures
        without_git(tail + ".git"@) == without_git(tail),
{
    reveal_strlit(".git");
    let all = tail + ".git"@;
    assert(all.subrange(all.len() - 4, all.len() as int) =~= ".git"@);
    assert(all.take(all.len() - 4) =~= tail);
}

proof fn lemma_no_git(tail: Seq<char>)
    requires
        !".git"@.is_suffix_of(tail),
    ensures
        without_git(tail) == tail,
{
}

/// What lies at a host, with an optional user and an optional port in front of the path.
proof fn lemma_located(user: Seq<char>, host: Seq<char>, port: Seq<char>, tail: Seq<char>)
    requires
        user.len() == 0 || (user.last() == '@' && lacks(user.drop_last(), '/')),
        lacks(host, '/'),
        lacks(host, '@'),
        lacks(host, ':'),
        port.len() == 0 || (port[0] == ':' && lacks(port.skip(1), '/') && lacks(port.skip(1), '@')
            && lacks(port.skip(1), ':')),
        tail.len() > 0,
        tail[0] == '/',
    ensures
        located(user + host + port + tail) == lower(host) + (if port.len() == 0 || default_port(
            port.skip(1),
        ) {
            Seq::empty()
        } else {
            port
        }) + without_git(tail),
{
    reveal_strlit(":");
    let all = user + host + port + tail;
    let authority = user + host + port;
    assert forall|i: int| 0 <= i < authority.len() implies #[trigger] authority[i] != '/' by {
        if i < user.len() {
            assert(authority[i] == user[i]);
            if i < user.len() - 1 {
                assert(user.drop_last()[i] == user[i]);
            } else {
                assert(user[i] == user.last());
            }
        } else if i < user.len() + host.len() {
            assert(authority[i] == host[i - user.len()]);
        } else {
            let k = i - user.len() - host.len();
            assert(authority[i] == port[k]);
            if k > 0 {
                assert(port.skip(1)[k - 1] == port[k]);
            }
        }
    }
    assert(all =~= authority + seq!['/'] + tail.skip(1));
    lemma_first_index(authority, '/', tail.skip(1));
    assert(all.take(authority.len() as int) =~= authority);
    assert(all.skip(authority.len() as int) =~= tail);
    let hostport = host + port;
    assert forall|i: int| 0 <= i < hostport.len() implies #[trigger] hostport[i] != '@' by {
        if i < host.len() {
            assert(hostport[i] == host[i]);
        } else {
            let k = i - host.len();
            assert(hostport[i] == port[k]);
            if k > 0 {
                assert(port.skip(1)[k - 1] == port[k]);
            }
        }
    }
    lemma_behind_last(user, hostport, '@');
    assert(user + hostport =~= authority);
    assert(behind_last(user, '@') == user.len());
    assert(authority.skip(user.len() as int) =~= hostport);
    lemma_host_text(host, port);
    assert(located(all) == host_text(hostport) + without_git(tail));
}

/// A host and a port, as they are written.
proof fn lemma_host_text(host: Seq<char>, port: Seq<char>)
    requires
        lacks(host, ':'),
        port.len() == 0 || (port[0] == ':' && lacks(port.skip(1), ':')),
    ensures
        host_text(host + port) == lower(host) + (if port.len() == 0 || default_port(port.skip(1)) {
            Seq::empty()
        } else {
            port
        }),
{
    reveal_strlit(":");
    let none = Seq::<char>::empty();
    let hostport = host + port;
    lemma_behind_last(none, host, ':');
    assert(none + host =~= host);
    assert(host_text(host) =~= lower(host) + none);
    if port.len() == 0 {
        assert(hostport =~= host);
    } else {
        let front = host + seq![':'];
        assert(front + port.skip(1) =~= hostport);
        lemma_behind_last(front, port.skip(1), ':');
        assert(front.last() == ':');
        assert(behind_last(front, ':') == front.len());
        assert(hostport.take(front.len() - 1) =~= host);
        assert(hostport.skip(front.len() as int) =~= port.skip(1));
        assert(port =~= ":"@ + port.skip(1));
        assert(lower(host) + ":"@ + port.skip(1) =~= lower(host) + port);
    }
}

/// What a source is, mathematically.
pub enum Repo {
    GitHub { owner: Seq<char>, repo: Seq<char>, rev: Option<Seq<char>> },
    Git { url: Seq<char>, rev: Option<Seq<char>> },
}

impl View for RepoSource {
    type V = Repo;

    open spec fn view(&self) -> Repo {
        match self {
            RepoSource::GitHub { owner, repo, rev } => Repo::GitHub {
                owner: owner@,
                repo: repo@,
                rev: text::optional_string(*rev),
            },
            RepoSource::Git { url, rev } => Repo::Git {
                url: url@,
                rev: text::optional_string(*rev),
            },
        }
    }
}

/// The name consists of an owner and a repository.
pub open spec fn is_pair(name: Seq<char>) -> bool {
    let slash = first_index(name, '/');
    0 < slash < name.len() - 1 && first_index(name.skip(slash + 1), '/') == name.len() - slash - 1
}

/// What the configuration says of a repository: a URL, or the owner and the name of one at GitHub.
/// A revision may follow behind `@`; in a URL only the path is searched for it.
pub open spec fn parsed_repo(s: Seq<char>) -> Option<Repo> {
    let start = match after_scheme(s) {
        Some(rest) => s.len() - rest.len() + first_index(rest, '/'),
        None => 0,
    };
    let at = start + first_index(s.skip(start), '@');
    let name = s.take(at);
    if at == s.len() - 1 {
        None
    } else {
        let rev = if at < s.len() {
            Some(s.skip(at + 1))
        } else {
            None
        };
        if after_scheme(s) is Some {
            Some(Repo::Git { url: name, rev })
        } else if is_pair(name) {
            let slash = first_index(name, '/');
            Some(Repo::GitHub { owner: name.take(slash), repo: name.skip(slash + 1), rev })
        } else {
            None
        }
    }
}

/// The owner and the name of a repository that is reached at GitHub by `https`.
pub open spec fn github_pair(r: Repo) -> Option<(Seq<char>, Seq<char>)> {
    match r {
        Repo::GitHub { owner, repo, .. } => Some((owner, repo)),
        Repo::Git { url, .. } => {
            let head = "https://github.com/"@;
            let name = without_git(url.skip(head.len() as int));
            if head.is_prefix_of(url) && is_pair(name) {
                let slash = first_index(name, '/');
                Some((name.take(slash), name.skip(slash + 1)))
            } else {
                None
            }
        },
    }
}

/// The URL of a repository.
pub open spec fn url_of(r: Repo) -> Seq<char> {
    match r {
        Repo::GitHub { owner, repo, .. } => "https://github.com/"@ + owner + "/"@ + repo,
        Repo::Git { url, .. } => url,
    }
}

/// The identity of a repository.
pub open spec fn canonical_of(r: Repo) -> Seq<char> {
    match r {
        Repo::GitHub { owner, repo, .. } => "github.com/"@ + owner + "/"@ + repo,
        Repo::Git { url, .. } => canonical_key(url),
    }
}

proof fn lemma_scheme_bound(s: Seq<char>)
    ensures
        after_scheme(s) is Some ==> after_scheme(s)->0.len() + 3 <= s.len(),
    decreases s.len(),
{
    if s.len() >= 3 && s.take(3) != "://"@ {
        lemma_scheme_bound(s.skip(1));
    }
}

/// The place of the only separator, if the characters name an owner and a repository.
fn find_pair(chars: &Vec<char>, from: usize, to: usize) -> (found: Option<usize>)
    requires
        from <= to <= chars@.len(),
    ensures
        ({
            let name = chars@.subrange(from as int, to as int);
            match found {
                Some(slash) => is_pair(name) && slash == from + first_index(name, '/') && slash
                    < to,
                None => !is_pair(name),
            }
        }),
{
    let ghost name = chars@.subrange(from as int, to as int);
    let slash = find_in(chars, '/', from, to);
    if slash == from || slash == to || slash == to - 1 {
        return None;
    }
    let second = find_in(chars, '/', slash + 1, to);
    assert(name.skip(slash - from + 1) =~= chars@.subrange(slash as int + 1, to as int));
    if second == to {
        Some(slash)
    } else {
        None
    }
}

fn find_in(chars: &Vec<char>, c: char, from: usize, to: usize) -> (at: usize)
    requires
        from <= to <= chars@.len(),
    ensures
        from <= at <= to,
        at == from + first_index(chars@.subrange(from as int, to as int), c),
{
    let ghost all = chars@.subrange(from as int, to as int);
    let mut at: usize = from;
    while at < to
        invariant
            from <= at <= to,
            to <= chars@.len(),
            all == chars@.subrange(from as int, to as int),
            from + first_index(all, c) == at + first_index(
                chars@.subrange(at as int, to as int),
                c,
            ),
        decreases to - at,
    {
        let ghost now = chars@.subrange(at as int, to as int);
        assert(now[0] == chars@[at as int]);
        if chars[at] == c {
            return at;
        }
        assert(now.skip(1) =~= chars@.subrange(at as int + 1, to as int));
        at = at + 1;
    }
    assert(chars@.subrange(at as int, to as int).len() == 0);
    at
}

/// The revision that a repository is asked for at.
pub open spec fn rev_of(repo: Repo) -> Option<Seq<char>> {
    match repo {
        Repo::GitHub { rev, .. } => rev,
        Repo::Git { rev, .. } => rev,
    }
}

impl RepoSource {
    /// Reads what the configuration says of a repository: a URL, or the owner and the name of one
    /// at GitHub, with an optional revision behind `@`.
    pub fn parse(s: &str) -> (source: Option<RepoSource>)
        ensures
            match source {
                Some(source) => parsed_repo(s@) == Some(source@),
                None => parsed_repo(s@) is None,
            },
    {
        let chars = text::chars_of(s);
        let n: usize = chars.len();
        let scheme = find_scheme(&chars);
        proof {
            lemma_scheme_bound(s@);
        }
        let start: usize = match scheme {
            Some(at) => find_first(&chars, '/', at),
            None => 0,
        };
        let at: usize = find_first(&chars, '@', start);
        if at < n && at == n - 1 {
            return None;
        }
        let name = text::text_between(&chars, 0, at);
        assert(name@ =~= s@.take(at as int));
        let rev = if at < n {
            let rev = text::text_between(&chars, at + 1, n);
            assert(rev@ =~= s@.skip(at as int + 1));
            Some(rev)
        } else {
            None
        };
        if scheme.is_some() {
            return Some(RepoSource::Git { url: name, rev });
        }
        assert(chars@.subrange(0, at as int) =~= name@);
        match find_pair(&chars, 0, at) {
            Some(slash) => {
                let owner = text::text_between(&chars, 0, slash);
                let repo = text::text_between(&chars, slash + 1, at);
                assert(owner@ =~= name@.take(slash as int));
                assert(repo@ =~= name@.skip(slash as int + 1));
                Some(RepoSource::GitHub { owner, repo, rev })
            },
            None => None,
        }
    }

    /// The revision that the repository is asked for at.
    pub fn rev(&self) -> (rev: Option<String>)
        ensures
            text::optional_string(rev) == rev_of(self@),
    {
        let rev = match self {
            RepoSource::GitHub { rev, .. } => rev,
            RepoSource::Git { rev, .. } => rev,
        };
        match rev {
            Some(rev) => Some(rev.clone()),
            None => None,
        }
    }

    /// The URL of the repository.
    pub fn url(&self) -> (url: String)
        ensures
            url@ == url_of(self@),
    {
        match self {
            RepoSource::GitHub { owner, repo, .. } => {
                let mut url = String::from_str("https://github.com/");
                url.append(owner.as_str());
                url.append("/");
                url.append(repo.as_str());
                url
            },
            RepoSource::Git { url, .. } => url.clone(),
        }
    }

    /// The identity of the repository: its host and path.
    pub fn canonical(&self) -> (canonical: String)
        ensures
            canonical@ == canonical_of(self@),
    {
        match self {
            RepoSource::GitHub { owner, repo, .. } => {
                let mut canonical = String::from_str("github.com/");
                canonical.append(owner.as_str());
                canonical.append("/");
                canonical.append(repo.as_str());
                canonical
            },
            RepoSource::Git { url, .. } => canonicalize_lock_key(url.as_str()),
        }
    }

    /// The owner and the name of a repository that is reached at GitHub by `https`.
    pub fn github(&self) -> (pair: Option<(String, String)>)
        ensures
            match pair {
                Some((owner, repo)) => github_pair(self@) == Some((owner@, repo@)),
                None => github_pair(self@) is None,
            },
    {
        match self {
            RepoSource::GitHub { owner, repo, .. } => Some((owner.clone(), repo.clone())),
            RepoSource::Git { url, .. } => {
                if !text::starts_with(url.as_str(), "https://github.com/") {
                    return None;
                }
                let chars = text::chars_of(url.as_str());
                proof {
                    reveal_strlit("https://github.com/");
                }
                let rest = text::text_between(&chars, 19, chars.len());
                assert(rest@ =~= url@.skip(19));
                let mut name = String::new();
                push_without_git(&mut name, rest.as_str());
                assert(name@ =~= without_git(rest@));
                let parts = text::chars_of(name.as_str());
                assert(parts@.subrange(0, parts@.len() as int) =~= name@);
                match find_pair(&parts, 0, parts.len()) {
                    Some(slash) => {
                        let owner = text::text_between(&parts, 0, slash);
                        let repo = text::text_between(&parts, slash + 1, parts.len());
                        assert(owner@ =~= name@.take(slash as int));
                        assert(repo@ =~= name@.skip(slash as int + 1));
                        Some((owner, repo))
                    },
                    None => None,
                }
            },
        }
    }
}

proof fn lemma_first_slash(s: Seq<char>)
    ensures
        0 <= first_index(s, '/') <= s.len(),
        first_index(s, '/') < s.len() ==> s[first_index(s, '/')] == '/',
    decreases s.len(),
{
    if s.len() > 0 && s[0] != '/' {
        lemma_first_slash(s.skip(1));
    }
}

/// A port that does not go without saying is part of the identity.
pub proof fn law_port_kept(
    scheme: Seq<char>,
    user: Seq<char>,
    host: Seq<char>,
    port: Seq<char>,
    path: Seq<char>,
)
    requires
        lacks(scheme, '/'),
        lacks(user, '/'),
        lacks(host, '/'),
        lacks(host, '@'),
        lacks(host, ':'),
        !default_port(port),
        lacks(port, '/'),
        lacks(port, '@'),
        lacks(port, ':'),
        !".git"@.is_suffix_of("/"@ + path),
    ensures
        canonical_key(scheme + "://"@ + host + ":"@ + port + "/"@ + path) == lower(host) + ":"@
            + port + "/"@ + path,
        canonical_key(scheme + "://"@ + user + "@"@ + host + ":"@ + port + "/"@ + path + ".git"@)
            == lower(host) + ":"@ + port + "/"@ + path,
{
    let none = Seq::<char>::empty();
    let p = ":"@ + port;
    lemma_one_url(scheme, none, host, p, path, none);
    lemma_one_url(scheme, user + "@"@, host, p, path, ".git"@);
    reveal_strlit(":");
    reveal_strlit("/");
    assert(p.skip(1) =~= port);
    assert(scheme + "://"@ + none + host + p + "/"@ + path + none =~= scheme + "://"@ + host + ":"@
        + port + "/"@ + path);
    assert(scheme + "://"@ + (user + "@"@) + host + p + "/"@ + path + ".git"@ =~= scheme + "://"@
        + user + "@"@ + host + ":"@ + port + "/"@ + path + ".git"@);
    assert(lower(host) + p + ("/"@ + path) =~= lower(host) + ":"@ + port + "/"@ + path);
}

/// In a URL a revision is what follows the first `@` of the path; an `@` in front of the path is
/// none.
pub proof fn law_revision_in_path(
    scheme: Seq<char>,
    authority: Seq<char>,
    path: Seq<char>,
    rev: Seq<char>,
)
    requires
        lacks(scheme, ':'),
        lacks(authority, '/'),
        lacks(path, '@'),
        rev.len() > 0,
    ensures
        ({
            let url = scheme + "://"@ + authority + "/"@ + path;
            &&& parsed_repo(url) == Some(Repo::Git { url, rev: None })
            &&& parsed_repo(url + "@"@ + rev) == Some(Repo::Git { url, rev: Some(rev) })
        }),
{
    reveal_strlit("/");
    reveal_strlit("@");
    reveal_strlit("://");
    let head = scheme + "://"@ + authority;
    let tail = "/"@ + path;
    let url = scheme + "://"@ + authority + "/"@ + path;
    let full = url + "@"@ + rev;
    let rest = authority + tail;
    let more = authority + (tail + "@"@ + rev);
    assert(url =~= scheme + "://"@ + rest);
    assert(full =~= scheme + "://"@ + more);
    lemma_after_scheme(scheme, rest);
    lemma_after_scheme(scheme, more);
    assert(rest =~= authority + seq!['/'] + path);
    assert(more =~= authority + seq!['/'] + (path + "@"@ + rev));
    lemma_first_index(authority, '/', path);
    lemma_first_index(authority, '/', path + "@"@ + rev);
    let start = head.len() as int;
    assert(url.skip(start) =~= tail);
    assert(full.skip(start) =~= tail + seq!['@'] + rev);
    assert(lacks(tail, '@')) by {
        assert forall|i: int| 0 <= i < tail.len() implies #[trigger] tail[i] != '@' by {
            if i > 0 {
                assert(tail[i] == path[i - 1]);
            }
        }
    }
    lemma_first_index(tail, '@', rev);
    lemma_absent(tail, '@');
    assert(url.take(url.len() as int) =~= url);
    assert(full.take(url.len() as int) =~= url);
    assert(full.skip(url.len() as int + 1) =~= rev);
}

/// An owner and a name make a repository at GitHub; what follows `@` is its revision.
pub proof fn law_shorthand(owner: Seq<char>, name: Seq<char>, rev: Seq<char>)
    requires
        owner.len() > 0,
        lacks(owner, '/'),
        lacks(owner, '@'),
        name.len() > 0,
        lacks(name, '/'),
        lacks(name, '@'),
        rev.len() > 0,
        after_scheme(owner + "/"@ + name) is None,
        after_scheme(owner + "/"@ + name + "@"@ + rev) is None,
    ensures
        parsed_repo(owner + "/"@ + name) == Some(Repo::GitHub { owner, repo: name, rev: None }),
        parsed_repo(owner + "/"@ + name + "@"@ + rev) == Some(
            Repo::GitHub { owner, repo: name, rev: Some(rev) },
        ),
{
    reveal_strlit("/");
    reveal_strlit("@");
    let pair = owner + "/"@ + name;
    let full = pair + "@"@ + rev;
    assert(lacks(pair, '@')) by {
        assert forall|i: int| 0 <= i < pair.len() implies #[trigger] pair[i] != '@' by {
            if i < owner.len() {
                assert(pair[i] == owner[i]);
            } else if i > owner.len() {
                assert(pair[i] == name[i - owner.len() - 1]);
            }
        }
    }
    lemma_absent(pair, '@');
    assert(full =~= pair + seq!['@'] + rev);
    lemma_first_index(pair, '@', rev);
    assert(pair.skip(0) =~= pair);
    assert(full.skip(0) =~= full);
    assert(pair.take(pair.len() as int) =~= pair);
    assert(full.take(pair.len() as int) =~= pair);
    assert(full.skip(pair.len() as int + 1) =~= rev);
    assert(pair =~= owner + seq!['/'] + name);
    lemma_first_index(owner, '/', name);
    assert(pair.skip(owner.len() as int + 1) =~= name);
    assert(pair.take(owner.len() as int) =~= owner);
    lemma_absent(name, '/');
}

proof fn lemma_absent(s: Seq<char>, c: char)
    requires
        lacks(s, c),
    ensures
        first_index(s, c) == s.len(),
    decreases s.len(),
{
    if s.len() > 0 {
        assert(s[0] != c);
        assert forall|i: int| 0 <= i < s.skip(1).len() implies #[trigger] s.skip(1)[i] != c by {
            assert(s.skip(1)[i] == s[i + 1]);
        }
        lemma_absent(s.skip(1), c);
    }
}

proof fn lemma_git_behind_slash(rest: Seq<char>)
    ensures
        without_git("/"@ + rest) == "/"@ + without_git(rest),
    decreases rest.len(),
{
    let tail = "/"@ + rest;
    reveal_strlit("/");
    reveal_strlit(".git");
    if rest.len() >= 4 {
        assert(tail.subrange(tail.len() - 4, tail.len() as int) =~= rest.subrange(
            rest.len() - 4,
            rest.len() as int,
        ));
        if ".git"@.is_suffix_of(rest) {
            lemma_git_behind_slash(rest.take(rest.len() - 4));
            assert(tail.take(tail.len() - 4) =~= "/"@ + rest.take(rest.len() - 4));
        }
    } else if rest.len() == 3 {
        assert(tail.subrange(0, 4)[0] == '/');
        assert(".git"@[0] == '.');
    }
}

/// A repository at GitHub has the identity that its owner and its name say, however it is
/// written.
pub proof fn law_github_identity(r: Repo)
    requires
        github_pair(r) is Some,
    ensures
        canonical_of(r) == "github.com/"@ + (github_pair(r)->0).0 + "/"@ + (github_pair(r)->0).1,
{
    match r {
        Repo::GitHub { .. } => {},
        Repo::Git { url, .. } => {
            let head = "https://github.com/"@;
            let rest = url.skip(head.len() as int);
            let name = without_git(rest);
            let slash = first_index(name, '/');
            reveal_strlit("https://github.com/");
            reveal_strlit("https");
            reveal_strlit("://");
            reveal_strlit("github.com");
            reveal_strlit("github.com/");
            reveal_strlit("/");
            reveal_strlit(".git");
            let host = "github.com"@;
            let tail = "/"@ + rest;
            assert(url =~= "https"@ + "://"@ + (host + tail)) by {
                assert(url.take(head.len() as int) =~= head);
                assert(url =~= head + rest);
                assert(head =~= "https"@ + "://"@ + host + "/"@);
            }
            lemma_behind_scheme("https"@, host + tail);
            let none = Seq::<char>::empty();
            lemma_located(none, host, none, tail);
            assert(none + host + none + tail =~= host + tail);
            assert(lower(host) =~= host);
            assert(lower(host) + none =~= host);
            lemma_git_behind_slash(rest);
            lemma_first_slash(name);
            assert(name =~= name.take(slash) + "/"@ + name.skip(slash + 1));
            assert(host + ("/"@ + name) =~= "github.com/"@ + name.take(slash) + "/"@ + name.skip(
                slash + 1,
            ));
        },
    }
}

} // verus!
