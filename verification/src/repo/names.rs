//! What repositories are called, and how they are reached.

use crate::repo;
use crate::repo::Repo;
use vstd::prelude::*;

verus! {

/// A port that a scheme has anyway says nothing: a repository is the same with it and without it.
pub proof fn law_usual_ports(scheme: Seq<char>, user: Seq<char>, host: Seq<char>, path: Seq<char>)
    requires
        repo::lacks(scheme, '/'),
        repo::lacks(user, '/'),
        repo::lacks(host, '/'),
        repo::lacks(host, '@'),
        repo::lacks(host, ':'),
        !".git"@.is_suffix_of("/"@ + path),
    ensures
        repo::canonical_key(scheme + "://"@ + user + "@"@ + host + ":"@ + "22"@ + "/"@ + path) == repo::lower(host)
            + "/"@ + path,
        repo::canonical_key(scheme + "://"@ + user + "@"@ + host + ":"@ + "80"@ + "/"@ + path) == repo::lower(host)
            + "/"@ + path,
        repo::canonical_key(scheme + "://"@ + user + "@"@ + host + ":"@ + "443"@ + "/"@ + path) == repo::lower(
            host,
        ) + "/"@ + path,
        repo::canonical_key(scheme + "://"@ + user + "@"@ + host + ":"@ + "9418"@ + "/"@ + path) == repo::lower(
            host,
        ) + "/"@ + path,
{
    reveal_strlit("22");
    reveal_strlit("80");
    reveal_strlit("443");
    reveal_strlit("9418");
    repo::law_one_identity(scheme, user, host, "22"@, path);
    repo::law_one_identity(scheme, user, host, "80"@, path);
    repo::law_one_identity(scheme, user, host, "443"@, path);
    repo::law_one_identity(scheme, user, host, "9418"@, path);
}

/// A port is kept unless it is one of four: other ports are other repositories.
pub proof fn law_other_ports(
    scheme: Seq<char>,
    user: Seq<char>,
    host: Seq<char>,
    port: Seq<char>,
    path: Seq<char>,
)
    requires
        repo::lacks(scheme, '/'),
        repo::lacks(user, '/'),
        repo::lacks(host, '/'),
        repo::lacks(host, '@'),
        repo::lacks(host, ':'),
        port.len() > 0,
        port != "22"@,
        port != "80"@,
        port != "443"@,
        port != "9418"@,
        repo::lacks(port, '/'),
        repo::lacks(port, '@'),
        repo::lacks(port, ':'),
        !".git"@.is_suffix_of("/"@ + path),
    ensures
        repo::canonical_key(scheme + "://"@ + host + ":"@ + port + "/"@ + path) == repo::lower(host)
            + ":"@ + port + "/"@ + path,
{
    repo::law_port_kept(scheme, user, host, port, path);
}

/// A name in lower case differs in its capital letters alone, each of which is the small one.
pub proof fn law_lower(s: Seq<char>, i: int)
    requires
        0 <= i < s.len(),
    ensures
        repo::lower(s).len() == s.len(),
        'A' <= s[i] && s[i] <= 'Z' ==> repo::lower(s)[i] as int == s[i] as int + 32,
        !('A' <= s[i] && s[i] <= 'Z') ==> repo::lower(s)[i] == s[i],
        repo::lower(repo::lower(s)) == repo::lower(s),
{
    assert(repo::lower(repo::lower(s)) =~= repo::lower(s));
}

/// Text that no revision is in, and that is no owner with a repository, names no repository; nor
/// does one with an empty revision.
pub proof fn law_no_repository(s: Seq<char>)
    requires
        repo::after_scheme(s) is None,
    ensures
        repo::lacks(s, '/') ==> repo::parsed_repo(s) is None,
        repo::lacks(s, '@') ==> repo::parsed_repo(s + "@"@) is None || repo::after_scheme(s + "@"@)
            is Some,
{
    reveal_strlit("@");
    if repo::lacks(s, '/') {
        let at = repo::first_index(s.skip(0), '@');
        assert(s.skip(0) =~= s);
        repo::laws::lemma_index_bounds(s, '@');
        let name = s.take(at);
        assert(repo::lacks(name, '/')) by {
            assert forall|i: int| 0 <= i < name.len() implies #[trigger] name[i] != '/' by {
                assert(name[i] == s[i]);
            }
        }
        repo::lemma_absent(name, '/');
    }
    let t = s + "@"@;
    if repo::lacks(s, '@') && repo::after_scheme(t) is None {
        assert(t.skip(0) =~= t);
        repo::lemma_first_index(s, '@', Seq::empty());
        assert(t =~= s + seq!['@'] + Seq::<char>::empty());
        assert(repo::first_index(t, '@') == s.len());
    }
}

/// A name with a dot or a colon before its slash is that of a host and no owner: it is the same
/// repository with a scheme in front of it.
pub proof fn law_host_without_scheme(scheme: Seq<char>, host: Seq<char>, name: Seq<char>)
    requires
        repo::lacks(scheme, '/'),
        repo::lacks(host, '/'),
        host.contains('.') || host.contains(':'),
        repo::lacks(name, '/'),
    ensures
        repo::canonical_key(host + "/"@ + name) == repo::canonical_key(
            scheme + "://"@ + (host + "/"@ + name),
        ),
{
    reveal_strlit("/");
    let key = host + "/"@ + name;
    repo::lemma_behind_scheme(scheme, key);
    assert(key =~= host + seq!['/'] + name);
    repo::lemma_first_index(host, '/', name);
    assert(key.take(host.len() as int) =~= host);
    if name.len() > 0 {
        assert(key[host.len() as int + 1] == name[0]);
    }
}

/// A name without a dot or a colon before its only slash is that of an owner and a repository at
/// GitHub.
pub proof fn law_owner_at_github(owner: Seq<char>, name: Seq<char>)
    requires
        repo::lacks(owner, '/'),
        repo::lacks(owner, '.'),
        repo::lacks(owner, ':'),
        repo::lacks(name, '/'),
        !".git"@.is_suffix_of(owner + "/"@ + name),
    ensures
        repo::canonical_key(owner + "/"@ + name) == "github.com/"@ + (owner + "/"@ + name),
{
    reveal_strlit("/");
    let key = owner + "/"@ + name;
    assert(key =~= owner + seq!['/'] + name);
    repo::lemma_first_index(owner, '/', name);
    assert(key.take(owner.len() as int) =~= owner);
    assert(key.skip(owner.len() as int + 1) =~= name);
    repo::lemma_absent(name, '/');
    if name.len() > 0 {
        assert(key[owner.len() as int + 1] == name[0]);
    }
    if owner.len() > 0 {
        assert(key[owner.len() - 1] == owner[owner.len() - 1]);
    }
    repo::lemma_no_git(key);
}

/// The URL of a repository at GitHub leads to that repository: read again it has the same owner, the
/// same name and the same identity.
pub proof fn law_url_leads_back(owner: Seq<char>, name: Seq<char>, rev: Option<Seq<char>>)
    requires
        owner.len() > 0,
        repo::lacks(owner, '/'),
        name.len() > 0,
        repo::lacks(name, '/'),
        !".git"@.is_suffix_of(owner + "/"@ + name),
    ensures
        ({
            let at_github = Repo::GitHub { owner, repo: name, rev };
            let url = repo::url_of(at_github);
            let elsewhere = Repo::Git { url, rev };
            &&& repo::github_pair(elsewhere) == Some((owner, name))
            &&& repo::canonical_key(url) == repo::canonical_of(at_github)
            &&& repo::url_of(elsewhere) == url
            &&& repo::rev_of(at_github) == rev && repo::rev_of(elsewhere) == rev
        }),
{
    reveal_strlit("/");
    let head = "https://github.com/"@;
    let pair = owner + "/"@ + name;
    let url = repo::url_of(Repo::GitHub { owner, repo: name, rev });
    assert(url =~= head + pair);
    assert(head =~= url.subrange(0, head.len() as int));
    assert(url.skip(head.len() as int) =~= pair);
    repo::lemma_no_git(pair);
    assert(pair =~= owner + seq!['/'] + name);
    repo::lemma_first_index(owner, '/', name);
    assert(pair.take(owner.len() as int) =~= owner);
    assert(pair.skip(owner.len() as int + 1) =~= name);
    repo::lemma_absent(name, '/');
    repo::law_github_identity(Repo::Git { url, rev });
}

} // verus!
