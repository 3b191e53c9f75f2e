//! What holds of an identity that is read again.

use crate::repo;
use vstd::prelude::*;

verus! {

pub(crate) proof fn lemma_index_bounds(s: Seq<char>, c: char)
    ensures
        0 <= repo::first_index(s, c) <= s.len(),
        repo::first_index(s, c) < s.len() ==> s[repo::first_index(s, c)] == c,
        repo::lacks(s.take(repo::first_index(s, c)), c),
    decreases s.len(),
{
    if s.len() > 0 && s[0] != c {
        lemma_index_bounds(s.skip(1), c);
        let n = repo::first_index(s.skip(1), c);
        assert forall|i: int| 0 <= i < n + 1 implies #[trigger] s.take(n + 1)[i] != c by {
            if i > 0 {
                assert(s.skip(1).take(n)[i - 1] == s[i]);
            }
        }
    }
}

proof fn lemma_behind_bounds(s: Seq<char>, c: char)
    ensures
        0 <= repo::behind_last(s, c) <= s.len(),
        repo::behind_last(s, c) > 0 ==> s[repo::behind_last(s, c) - 1] == c,
        repo::lacks(s.skip(repo::behind_last(s, c)), c),
    decreases s.len(),
{
    if s.len() > 0 && s.last() != c {
        let front = s.drop_last();
        lemma_behind_bounds(front, c);
        let n = repo::behind_last(front, c);
        assert forall|i: int| 0 <= i < s.len() - n implies #[trigger] s.skip(n)[i] != c by {
            if i < s.len() - n - 1 {
                assert(front.skip(n)[i] == s[n + i]);
            }
        }
    }
}

/// A host with its port is written without a slash and without a user, does not end with a colon,
/// and is written as itself.
proof fn lemma_host(given: Seq<char>)
    requires
        repo::lacks(given, '/'),
        repo::lacks(given, '@'),
    ensures
        ({
            let h = repo::host_text(given);
            &&& repo::lacks(h, '/')
            &&& repo::lacks(h, '@')
            &&& h.len() > 0 ==> h.last() != ':'
            &&& repo::host_text(h) == h
        }),
    decreases given.len(),
{
    reveal_strlit(":");
    let at = repo::behind_last(given, ':');
    lemma_behind_bounds(given, ':');
    if at == 0 {
        let h = repo::lower(given);
        assert(given.skip(0) =~= given);
        lemma_lower(given);
        lemma_no_colon(h);
    } else {
        let front = given.take(at - 1);
        let port = given.skip(at);
        assert forall|i: int| 0 <= i < front.len() implies #[trigger] front[i] != '/' && front[i]
            != '@' by {
            assert(front[i] == given[i]);
        }
        if repo::default_port(port) {
            lemma_host(front);
        } else {
            let host = repo::lower(front);
            let head = host + seq![':'];
            let h = host + ":"@ + port;
            lemma_lower(front);
            assert(h =~= head + port);
            repo::lemma_behind_last(head, port, ':');
            assert(head.last() == ':');
            assert(repo::behind_last(head, ':') == head.len());
            assert(h.take(head.len() - 1) =~= host);
            assert(h.skip(head.len() as int) =~= port);
            assert(repo::host_text(h) =~= h);
            assert forall|i: int| 0 <= i < h.len() implies #[trigger] h[i] != '/' && h[i] != '@' by {
                if i < host.len() {
                    assert(h[i] == host[i]);
                } else if i > host.len() {
                    assert(h[i] == port[i - host.len() - 1]);
                    assert(port[i - host.len() - 1] == given[i]);
                }
            }
            assert(port.len() > 0);
            assert(h.last() == port[port.len() - 1]);
        }
    }
}

/// A name in lower case is in lower case, and has no other separators.
proof fn lemma_lower(s: Seq<char>)
    ensures
        repo::lower(repo::lower(s)) == repo::lower(s),
        repo::lacks(s, ':') ==> repo::lacks(repo::lower(s), ':'),
        repo::lacks(s, '@') ==> repo::lacks(repo::lower(s), '@'),
        repo::lacks(s, '/') ==> repo::lacks(repo::lower(s), '/'),
{
    let low = repo::lower(s);
    assert forall|i: int| 0 <= i < s.len() implies repo::lower(low)[i] == #[trigger] low[i] by {
        assert(low[i] == repo::lower_char(s[i]));
    }
    assert(repo::lower(low) =~= low);
    assert forall|i: int| 0 <= i < low.len() implies #[trigger] low[i] == repo::lower_char(
        s[i],
    ) by {}
}

/// A host without a colon in lower case is written as itself.
proof fn lemma_no_colon(h: Seq<char>)
    requires
        repo::lacks(h, ':'),
        repo::lower(h) == h,
    ensures
        repo::host_text(h) == h,
        h.len() > 0 ==> h.last() != ':',
{
    let none = Seq::<char>::empty();
    repo::lemma_behind_last(none, h, ':');
    assert(none + h =~= h);
    if h.len() > 0 {
        assert(h[h.len() - 1] == h.last());
    }
}

/// A host with a path behind it.
proof fn lemma_parts(host: Seq<char>, path: Seq<char>)
    requires
        repo::lacks(host, '/'),
        path.len() > 0 ==> path[0] == '/',
    ensures
        repo::first_index(host + path, '/') == host.len(),
        (host + path).take(host.len() as int) == host,
        (host + path).skip(host.len() as int) == path,
{
    let all = host + path;
    if path.len() == 0 {
        assert(all =~= host);
        repo::lemma_absent(host, '/');
    } else {
        assert(all =~= host + seq!['/'] + path.skip(1));
        repo::lemma_first_index(host, '/', path.skip(1));
    }
    assert(all.take(host.len() as int) =~= host);
    assert(all.skip(host.len() as int) =~= path);
}

proof fn lemma_git(path: Seq<char>)
    ensures
        repo::without_git(repo::without_git(path)) == repo::without_git(path),
        path.len() > 0 && path[0] == '/' ==> repo::without_git(path).len() > 0
            && repo::without_git(path)[0] == '/',
        path.len() == 0 ==> repo::without_git(path).len() == 0,
    decreases path.len(),
{
    reveal_strlit(".git");
    if path.len() >= 4 && ".git"@.is_suffix_of(path) {
        let front = path.take(path.len() - 4);
        lemma_git(front);
        assert(".git"@ == path.subrange(path.len() - 4, path.len() as int));
        if path.len() == 4 {
            assert(path.subrange(0, 4)[0] == path[0]);
            assert(".git"@[0] == '.');
        } else {
            assert(front[0] == path[0]);
        }
    }
}

/// A path at a host is read as itself, if the host and the path are written as themselves, unless
/// it reads as an owner and a repository.
proof fn lemma_read_again(host: Seq<char>, path: Seq<char>)
    requires
        repo::lacks(host, '/'),
        repo::lacks(host, '@'),
        host.len() > 0 ==> host.last() != ':',
        repo::host_text(host) == host,
        repo::without_git(path) == path,
        path.len() > 0 ==> path[0] == '/',
    ensures
        repo::canonical_key(host + path) == host + path <==> !repo::is_shorthand(host + path),
{
    let plain = host + path;
    let none = Seq::<char>::empty();
    lemma_parts(host, path);
    assert(repo::behind_scheme(plain) is None) by {
        if host.len() > 0 {
            assert(plain[host.len() - 1] == host.last());
        }
    }
    if repo::is_shorthand(plain) {
        if repo::canonical_key(plain) == plain {
            reveal_strlit("github.com/");
            reveal_strlit("github.com");
            let name = "github.com"@;
            let rest = repo::without_git(plain);
            assert("github.com/"@ =~= name + seq!['/']);
            assert(plain =~= name + seq!['/'] + rest);
            repo::lemma_first_index(name, '/', rest);
            assert(plain.take(10)[6] == '.');
            assert(plain.take(10).contains('.'));
            assert(false);
        }
    } else {
        repo::lemma_behind_last(none, host, '@');
        assert(none + host =~= host);
        assert(host.skip(0) =~= host);
    }
}

/// The identity of what lies at a host is a host and a path.
proof fn lemma_located_again(rest: Seq<char>)
    ensures
        repo::canonical_key(repo::located(rest)) == repo::located(rest) <==> !repo::is_shorthand(
            repo::located(rest),
        ),
{
    let slash = repo::first_index(rest, '/');
    lemma_index_bounds(rest, '/');
    let authority = rest.take(slash);
    let at = repo::behind_last(authority, '@');
    lemma_behind_bounds(authority, '@');
    let host = authority.skip(at);
    let path = rest.skip(slash);
    assert forall|i: int| 0 <= i < host.len() implies #[trigger] host[i] != '/' by {
        assert(host[i] == authority[at + i]);
    }
    if path.len() > 0 {
        assert(path[0] == rest[slash]);
    }
    lemma_host(host);
    lemma_git(path);
    lemma_read_again(repo::host_text(host), repo::without_git(path));
}

/// The identity of a repository is read as itself, unless it reads as an owner and a repository at
/// GitHub: a host without a dot and without a port does, with a path of one name.
pub proof fn law_identity_of_an_identity(key: Seq<char>)
    ensures
        repo::canonical_key(repo::canonical_key(key)) == repo::canonical_key(key)
            <==> !repo::is_shorthand(repo::canonical_key(key)),
{
    match repo::behind_scheme(key) {
        Some(rest) => {
            lemma_located_again(rest);
        },
        None => {
            if repo::is_shorthand(key) {
                reveal_strlit("github.com/");
                reveal_strlit("github.com");
                reveal_strlit("/");
                let host = "github.com"@;
                let name = repo::without_git(key);
                let path = "/"@ + name;
                lemma_git(key);
                repo::lemma_git_behind_slash(name);
                assert(repo::lower(host) =~= host);
                lemma_no_colon(host);
                assert(repo::canonical_key(key) =~= host + path);
                lemma_read_again(host, path);
            } else {
                lemma_located_again(key);
            }
        },
    }
}

} // verus!
