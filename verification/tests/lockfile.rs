use rsplug::config::RepoSource;
use rsplug::lockfile::{
    expand_rev, update_locked, LockFile, LockedResource, LockedResourceType,
};
use rsplug::order::SortedMap;
use rsplug::repo::canonicalize_lock_key;
use rsplug::scheduler::Rev;

fn lock_entry(rev: &str) -> LockedResource {
    LockedResource {
        kind: LockedResourceType::Git,
        rev: rev.to_string(),
    }
}

fn locked(entries: &[(&str, &str)]) -> SortedMap<String, LockedResource> {
    let mut map = SortedMap::new();
    for (key, rev) in entries {
        map.insert(key.to_string(), lock_entry(rev));
    }
    map
}

fn rev_of(map: &SortedMap<String, LockedResource>, key: &str) -> Option<String> {
    map.get(&key.to_string()).map(|r| r.rev.clone())
}

#[test]
fn normalize_keys_dedups_same_rev_across_url_forms() {
    let lf = LockFile {
        version: "1".into(),
        locked: locked(&[
            ("https://github.com/o/r", "aaaa"),
            ("ssh://git@github.com/o/r.git", "aaaa"),
        ]),
    };
    let lf = lf.normalize_keys().ok().unwrap();
    assert_eq!(lf.locked.len(), 1);
    assert_eq!(
        rev_of(&lf.locked, "github.com/o/r"),
        Some("aaaa".to_string())
    );
}

#[test]
fn normalize_keys_rejects_conflicting_revisions() {
    let lf = LockFile {
        version: "1".into(),
        locked: locked(&[
            ("https://github.com/o/r", "aaaa"),
            ("ssh://git@github.com/o/r.git", "bbbb"),
        ]),
    };
    let err = lf.normalize_keys().err().unwrap();
    let msg = err.message();
    assert!(msg.contains("github.com/o/r"), "msg={}", msg);
    assert!(msg.contains("Conflicting"), "msg={}", msg);
}

#[test]
fn normalize_keys_accepts_already_canonical_and_shorthand() {
    let lf = LockFile {
        version: "2".into(),
        locked: locked(&[("github.com/o/r", "aaaa"), ("owner2/repo2", "bbbb")]),
    };
    let lf = lf.normalize_keys().ok().unwrap();
    assert_eq!(
        rev_of(&lf.locked, "github.com/o/r"),
        Some("aaaa".to_string())
    );
    assert_eq!(
        rev_of(&lf.locked, "github.com/owner2/repo2"),
        Some("bbbb".to_string())
    );
}

#[test]
fn normalize_keys_preserves_non_default_port() {
    let lf = LockFile {
        version: "1".into(),
        locked: locked(&[("https://gitlab.com:2222/o/r", "cccc")]),
    };
    let lf = lf.normalize_keys().ok().unwrap();
    assert!(lf.locked.contains(&"gitlab.com:2222/o/r".to_string()));
}

#[test]
fn urls_of_one_repository_have_one_key() {
    for url in [
        "https://github.com/o/r",
        "https://github.com/o/r.git",
        "https://GitHub.com:443/o/r",
        "ssh://git@github.com:22/o/r.git",
        "o/r",
    ] {
        assert_eq!(canonicalize_lock_key(url), "github.com/o/r", "for {url}");
    }
}

#[test]
fn locks_are_removed_and_set() {
    let updated = update_locked(
        locked(&[("a", "1"), ("b", "2"), ("c", "3")]),
        &vec!["a".to_string()],
        &vec![
            ("b".to_string(), "20".to_string()),
            ("d".to_string(), "40".to_string()),
        ],
    );
    assert_eq!(rev_of(&updated, "a"), None);
    assert_eq!(rev_of(&updated, "b"), Some("20".to_string()));
    assert_eq!(rev_of(&updated, "c"), Some("3".to_string()));
    assert_eq!(rev_of(&updated, "d"), Some("40".to_string()));
}

#[test]
fn locked_runs_need_a_locked_revision() {
    let map = locked(&[("github.com/o/r", "abc")]);
    let canonical = Some("github.com/o/r".to_string());
    assert_eq!(
        expand_rev(&canonical, true, &map, Rev::Auto).ok().unwrap(),
        Some("abc".to_string())
    );
    let missing = expand_rev(&Some("github.com/o/x".to_string()), true, &map, Rev::Auto)
        .err()
        .unwrap();
    assert!(missing.message().contains("github.com/o/x"));
    assert_eq!(
        expand_rev(
            &canonical,
            false,
            &map,
            Rev::Resolved(Some("def".to_string()))
        )
        .ok()
        .unwrap(),
        Some("def".to_string())
    );
}

fn github(s: &str) -> Option<(String, String, Option<String>)> {
    match RepoSource::parse(s) {
        Some(RepoSource::GitHub { owner, repo, rev }) => Some((owner, repo, rev)),
        _ => None,
    }
}

fn git(s: &str) -> Option<(String, Option<String>)> {
    match RepoSource::parse(s) {
        Some(RepoSource::Git { url, rev }) => Some((url, rev)),
        _ => None,
    }
}

#[test]
fn repositories_are_read() {
    let pair = |rev: Option<&str>| {
        Some(("owner".to_string(), "plugin".to_string(), rev.map(str::to_string)))
    };
    assert_eq!(github("owner/plugin"), pair(None));
    assert_eq!(github("owner/plugin@main"), pair(Some("main")));
    assert_eq!(github("owner/plugin@v1.2.0"), pair(Some("v1.2.0")));
    assert_eq!(github("owner/plugin@v*"), pair(Some("v*")));
    assert_eq!(
        git("https://gitlab.com/owner/plugin"),
        Some(("https://gitlab.com/owner/plugin".to_string(), None))
    );
    assert_eq!(
        git("https://codeberg.org/owner/plugin@main"),
        Some(("https://codeberg.org/owner/plugin".to_string(), Some("main".to_string())))
    );
    assert_eq!(
        git("ssh://git@host.org/owner/plugin"),
        Some(("ssh://git@host.org/owner/plugin".to_string(), None))
    );
    for wrong in ["", "owner", "owner/", "/plugin", "a/b/c", "owner/plugin@"] {
        assert!(RepoSource::parse(wrong).is_none(), "{wrong}");
    }
}

#[test]
fn repositories_at_github_have_one_identity() {
    for s in [
        "owner/plugin@main",
        "https://github.com/owner/plugin",
        "https://github.com/owner/plugin.git@v1",
    ] {
        let source = RepoSource::parse(s).unwrap();
        assert_eq!(source.canonical(), "github.com/owner/plugin");
        assert_eq!(source.github(), Some(("owner".to_string(), "plugin".to_string())));
    }
    let other = RepoSource::parse("https://gitlab.com/owner/plugin@x").unwrap();
    assert_eq!(other.github(), None);
    assert_eq!(other.url(), "https://gitlab.com/owner/plugin");
    assert_eq!(other.rev().as_deref(), Some("x"));
    assert_eq!(
        RepoSource::parse("owner/plugin").unwrap().url(),
        "https://github.com/owner/plugin"
    );
}

#[test]
fn other_ports_are_part_of_the_identity() {
    assert_eq!(canonicalize_lock_key("ssh://git@Host.org:2222/o/r.git"), "host.org:2222/o/r");
    assert_eq!(canonicalize_lock_key("https://host.org:8443/o/r"), "host.org:8443/o/r");
    assert_eq!(canonicalize_lock_key("https://host.org:443/o/r"), "host.org/o/r");
}

#[test]
fn users_of_urls_are_no_revisions() {
    assert_eq!(
        git("https://me@host.org/o/r"),
        Some(("https://me@host.org/o/r".to_string(), None))
    );
    assert_eq!(
        git("https://me@host.org/o/r@v1"),
        Some(("https://me@host.org/o/r".to_string(), Some("v1".to_string())))
    );
}

#[test]
fn normalizing_twice_is_normalizing_once() {
    let lf = LockFile {
        version: "1".into(),
        locked: locked(&[
            ("https://github.com/o/r.git", "aaaa"),
            ("owner2/repo2", "bbbb"),
            ("ssh://git@host.example:2222/p/q", "cccc"),
        ]),
    };
    let once = lf.normalize_keys().ok().unwrap();
    let keys = |map: &SortedMap<String, LockedResource>| -> Vec<(String, String)> {
        (0..map.len())
            .map(|i| (map.key_at(i).clone(), map.value_at(i).rev.clone()))
            .collect()
    };
    let first = keys(&once.locked);
    let twice = once.normalize_keys().ok().unwrap();
    assert_eq!(keys(&twice.locked), first);
    assert_eq!(first.len(), 3);
    // Only a host without a dot and a path of one name read as something else.
    assert_eq!(canonicalize_lock_key("https://localhost/repo"), "localhost/repo");
    assert_eq!(canonicalize_lock_key("https://localhost/group/repo"), "localhost/group/repo");
    assert_eq!(canonicalize_lock_key("localhost/repo"), "github.com/localhost/repo");
    assert_eq!(canonicalize_lock_key("https://h.example/a.git.git"), "h.example/a");
    for key in [
        "https://localhost/group/repo",
        "https://localhost:8443/repo",
        "localhost/repo",
        "https://h.example/a.git.git",
        "https://h.example:443:443/a",
        "https://h.example/x://y",
        "owner/.git",
        "file:///home/me/repo",
        "",
        "/",
    ] {
        let canonical = canonicalize_lock_key(key);
        assert_eq!(canonicalize_lock_key(&canonical), canonical, "for {key}");
    }
}
