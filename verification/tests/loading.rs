use rsplug::acquisition::{
    build_log_id, choose_revision, missing_message, runs_post_update, BuildStep, Choice, Mode,
    SnapshotEvent, SnapshotStep, SourceEvent, SourceStep,
};
use rsplug::config::RepoSource;
use rsplug::parse_error::{
    blamed_place, fields_in, format_toml_parse_error, format_unplaced_error, is_shown, line_info,
    mark, parse_probes, plugin_fields, probes_of, refine_parse_error_span, Field, TableText,
};
use rsplug::patterns::{is_ignored, name_matches, DEFAULT_IGNORE};
use rsplug::scheduler::graph::Phase;
use rsplug::scheduler::machine::{Scheduler, StuckError};
use rsplug::scheduler::outcome::{collect_outcomes, Outcome};
use rsplug::scheduler::{
    chunk_answers, is_full_hex_hash, plan_revision, Action, EarlyEnd, EarlyKey, GithubRev,
    RepoRequest, ResolvedRev, Rev, RevPlan, Settings,
};
use rsplug::sources::{is_ignorable_walk_error, part_patterns, DirectFile, WalkErrorKind};

fn strings(list: &[&str]) -> Vec<String> {
    list.iter().map(|s| s.to_string()).collect()
}

fn plain() -> Settings {
    Settings {
        locked: false,
        update: false,
        do_graphql: false,
    }
}

fn github(repo: &str, rev: Option<&str>) -> RepoRequest {
    RepoRequest {
        canonical: format!("github.com/o/{repo}"),
        rev: rev.map(str::to_string),
        github: Some(("o".to_string(), repo.to_string())),
    }
}

/// Runs all that is asked for, each early part with the same end; the nodes in the order in which
/// their late parts ran.
fn run_all(s: &mut Scheduler, mut todo: Vec<Action>, end: EarlyEnd) -> Vec<usize> {
    let mut late = Vec::new();
    while !todo.is_empty() {
        let more = match todo.remove(0) {
            Action::StartEarly { key, .. } => s.early_done(key, end),
            Action::StartLate { node } => {
                late.push(node);
                s.late_done(node)
            }
            _ => Vec::new(),
        };
        todo.extend(more);
    }
    late
}

#[test]
fn plugins_without_repositories_are_loaded() {
    let mut s = Scheduler::new(plain());
    let mut todo = s.plugin_read("a".to_string(), None).ok().unwrap();
    todo.extend(s.plugin_read("b".to_string(), None).ok().unwrap());
    assert_eq!(todo.len(), 2);
    todo.extend(s.parsed(&strings(&["a", "b"]), &vec![Vec::new(), Vec::new()]));
    let mut late = run_all(&mut s, todo, EarlyEnd::Ready);
    late.sort();
    assert_eq!(late, vec![0, 1]);
    assert!(s.graph.nodes.iter().all(|n| n.phase == Phase::Finished));
    assert!(s.nothing_left().is_ok_and(|left| left.is_empty()));
}

#[test]
fn plugins_wait_for_what_they_depend_on() {
    let mut s = Scheduler::new(plain());
    let mut todo = s.plugin_read("child".to_string(), None).ok().unwrap();
    todo.extend(s.plugin_read("base".to_string(), None).ok().unwrap());
    todo.extend(s.parsed(
        &strings(&["child", "base"]),
        &vec![strings(&["base"]), Vec::new()],
    ));
    assert_eq!(run_all(&mut s, todo, EarlyEnd::Ready), vec![1, 0]);
}

#[test]
fn skipped_plugins_hold_nothing_up() {
    let mut s = Scheduler::new(plain());
    let mut todo = s.plugin_read("child".to_string(), None).ok().unwrap();
    todo.extend(s.plugin_read("base".to_string(), None).ok().unwrap());
    todo.extend(s.parsed(
        &strings(&["child", "base"]),
        &vec![strings(&["base"]), Vec::new()],
    ));
    assert!(run_all(&mut s, todo, EarlyEnd::Skipped).is_empty());
    assert!(s.graph.nodes.iter().all(|n| n.phase == Phase::Finished));
}

#[test]
fn one_repository_has_one_revision() {
    let mut s = Scheduler::new(plain());
    assert!(s
        .plugin_read("a".to_string(), Some(github("r", Some("v1"))))
        .is_ok());
    let conflict = s
        .plugin_read("b".to_string(), Some(github("r", Some("v2"))))
        .err()
        .unwrap();
    assert_eq!(
        conflict.message(),
        "Conflicting revisions for github.com/o/r: Some(\"v1\") vs Some(\"v2\")"
    );
}

#[test]
fn revisions_are_resolved_many_at_a_time() {
    let mut s = Scheduler::new(Settings {
        locked: false,
        update: false,
        do_graphql: true,
    });
    let mut todo = Vec::new();
    for i in 0..26 {
        let request = Some(github(&format!("r{i:02}"), None));
        todo.extend(s.plugin_read(format!("p{i}"), request).ok().unwrap());
    }
    let chunks: Vec<usize> = todo
        .iter()
        .filter_map(|a| match a {
            Action::Resolve { chunk } => Some(chunk.len()),
            _ => None,
        })
        .collect();
    assert_eq!(chunks, vec![25]);
    let ids: Vec<String> = (0..26).map(|i| format!("p{i}")).collect();
    let rest: Vec<usize> = s
        .parsed(&ids, &vec![Vec::new(); 26])
        .iter()
        .filter_map(|a| match a {
            Action::Resolve { chunk } => Some(chunk.len()),
            _ => None,
        })
        .collect();
    assert_eq!(rest, vec![1]);
    let started = s.chunk_done(&vec![(
        "github.com/o/r00".to_string(),
        Some("abc".to_string()),
    )]);
    assert!(started.iter().any(|a| matches!(
        a,
        Action::StartEarly {
            rev: Rev::Resolved(Some(rev)),
            ..
        } if rev == "abc"
    )));
}

#[test]
fn revisions_are_planned() {
    let graphql = |update: bool| Settings {
        locked: false,
        update,
        do_graphql: true,
    };
    let hash = "0123456789012345678901234567890123456789";
    assert!(is_full_hex_hash(hash));
    assert!(!is_full_hex_hash("0123"));
    assert!(matches!(
        plan_revision(&plain(), &Some(github("r", None))),
        RevPlan::Known(Rev::Auto)
    ));
    assert!(matches!(
        plan_revision(&graphql(false), &Some(github("r", Some(hash)))),
        RevPlan::Known(Rev::Resolved(Some(rev))) if rev == hash
    ));
    assert!(matches!(
        plan_revision(&graphql(false), &Some(github("r", None))),
        RevPlan::Resolve
    ));
    assert!(matches!(
        plan_revision(&graphql(true), &Some(github("r", None))),
        RevPlan::IfInstalled
    ));
    assert!(matches!(
        plan_revision(&graphql(true), &Some(github("r", Some("v*")))),
        RevPlan::Known(Rev::Resolved(None))
    ));
    assert!(matches!(
        plan_revision(&graphql(true), &None),
        RevPlan::Known(Rev::Auto)
    ));
}

#[test]
fn runs_that_cannot_go_on_say_so() {
    let mut s = Scheduler::new(plain());
    let _ = s.plugin_read("a".to_string(), None);
    assert!(matches!(
        s.nothing_left().err(),
        Some(StuckError::Unpromoted)
    ));
    assert!(StuckError::Deadlock.message().contains("deadlock"));
    let key = EarlyKey::Staged("a".to_string());
    assert!(s.early_done(key, EarlyEnd::Ready).is_empty());
}

#[test]
fn outcomes_are_collected_until_one_fails() {
    let loaded = |n: u8, lock: Option<(&str, &str)>| -> Result<Outcome<u8>, String> {
        Ok(Outcome {
            loaded: Some((n, lock.map(|(a, b)| (a.to_string(), b.to_string())))),
            canon_to_remove: None,
        })
    };
    let removed: Result<Outcome<u8>, String> = Ok(Outcome {
        loaded: None,
        canon_to_remove: Some("c".to_string()),
    });
    let all = collect_outcomes(vec![loaded(1, Some(("a", "1"))), removed, loaded(2, None)])
        .ok()
        .unwrap();
    assert_eq!(all.plugins, vec![1, 2]);
    assert_eq!(all.lock_infos, vec![("a".to_string(), "1".to_string())]);
    assert_eq!(all.remove_canons, vec!["c"]);
    let failed = collect_outcomes(vec![loaded(1, None), Err("x".to_string())]);
    assert_eq!(failed.err(), Some("x".to_string()));
}

#[test]
fn repositories_are_made_only_when_asked_for() {
    let mode = |install: bool, locked: bool| Mode {
        install,
        update: false,
        locked,
    };
    let open = SourceStep::Open;
    assert_eq!(
        open.advance(mode(true, true), SourceEvent::Failed),
        SourceStep::Initialize
    );
    assert_eq!(
        open.advance(mode(false, true), SourceEvent::Failed),
        SourceStep::Missing
    );
    assert_eq!(
        open.advance(mode(false, false), SourceEvent::Failed),
        SourceStep::NotInstalled
    );
    let look = open.advance(mode(false, false), SourceEvent::Done);
    assert_eq!(look, SourceStep::Look);
    let fetch = look.advance(mode(false, false), SourceEvent::Absent);
    assert_eq!(fetch, SourceStep::Fetch);
    assert!(!fetch.is_end());
    assert!(fetch.advance(mode(false, false), SourceEvent::Done).is_end());
    assert_eq!(
        missing_message("u"),
        "Missing cached repository for locked revision: u"
    );
}

#[test]
fn snapshots_fall_back_to_the_repository() {
    let look = SnapshotStep::Look;
    assert_eq!(
        look.advance(true, SnapshotEvent::Found { has_git: true }),
        SnapshotStep::Ready { plain: false }
    );
    let archive = look.advance(true, SnapshotEvent::Absent);
    assert_eq!(archive, SnapshotStep::Archive);
    assert_eq!(
        archive.advance(true, SnapshotEvent::Done),
        SnapshotStep::Ready { plain: true }
    );
    let source = archive.advance(true, SnapshotEvent::Failed);
    assert_eq!(source, SnapshotStep::Source);
    assert_eq!(
        source.advance(true, SnapshotEvent::Absent),
        SnapshotStep::NotInstalled
    );
    let made = source.advance(true, SnapshotEvent::Done);
    assert_eq!(
        made.advance(true, SnapshotEvent::Done),
        SnapshotStep::Ready { plain: false }
    );
    assert_eq!(
        look.advance(false, SnapshotEvent::Absent),
        SnapshotStep::Materialize
    );
}

#[test]
fn builds_run_the_shell_before_lua() {
    let shell = BuildStep::first(true, true);
    assert_eq!(shell, BuildStep::Shell);
    assert_eq!(
        shell.advance(true, 2),
        BuildStep::ShellFailed { status: 2 }
    );
    let lua = shell.advance(true, 0);
    assert_eq!(lua, BuildStep::Lua);
    assert_eq!(lua.advance(true, 0), BuildStep::Done);
    assert_eq!(lua.advance(true, 1), BuildStep::LuaFailed { code: 1 });
    assert_eq!(BuildStep::first(false, false), BuildStep::Done);
    assert_eq!(shell.advance(false, 0), BuildStep::Done);
    assert_eq!(build_log_id("p", false), "p (sh)");
    assert_eq!(build_log_id("p", true), "p (lua)");
}

#[test]
fn wrong_values_are_found_in_their_line() {
    let input = b"[[plugins]]\nrepo = \"owner/plugin\"\nstart = tru\n".to_vec();
    let start = 42;
    assert_eq!(&input[start..start + 3], b"tru");
    let info = line_info(&input, start);
    assert_eq!((info.line_no, info.col_no), (3, 9));
    assert_eq!(&input[info.line_start..info.line_end], b"start = tru");
    let m = mark(&input, start, start + 3);
    assert_eq!((m.indent, m.carets), (8, 2));
    let line = &input[m.info.line_start..m.info.line_end];
    assert_eq!(&line[m.from..m.to], b"tru");
    // What is wrong at the end of the input is marked with one caret.
    let end = mark(&input, input.len(), input.len());
    assert_eq!((end.info.line_no, end.indent, end.carets), (4, 0, 1));
    // So is what is wrong behind it.
    let behind = line_info(&input, input.len() + 5);
    assert_eq!((behind.line_no, behind.col_no), (4, 6));
    assert_eq!((behind.line_start, behind.line_end), (input.len(), input.len()));
}

fn field(key: &str, text: &str, start: usize) -> Field {
    Field {
        key: key.to_string(),
        text: text.to_string(),
        start,
        end: start + text.len(),
    }
}

#[test]
fn the_field_that_fails_is_to_blame() {
    let fields = vec![
        field("on_ft", "7", 50),
        field("repo", "\"owner/x\"", 19),
        field("start", "1", 70),
    ];
    let probes = probes_of(&fields).unwrap();
    let texts: Vec<&str> = probes.iter().map(|probe| probe.text.as_str()).collect();
    assert_eq!(
        texts,
        [
            "[[plugins]]\nrepo = \"owner/x\"\n",
            "[[plugins]]\nrepo = \"owner/x\"\non_ft = 7\n",
            "[[plugins]]\nrepo = \"owner/x\"\nstart = 1\n",
        ]
    );
    assert_eq!(blamed_place(&probes, &vec![true, true, true]), Some((19, 28)));
    assert_eq!(blamed_place(&probes, &vec![false, true, true]), Some((50, 51)));
    assert_eq!(blamed_place(&probes, &vec![false, false, true]), Some((70, 71)));
    assert_eq!(blamed_place(&probes, &vec![false, false, false]), None);
    assert_eq!(blamed_place(&probes, &vec![]), None);
    assert!(probes_of(&vec![field("start", "1", 0)]).is_none());
}

#[test]
fn fields_are_read_from_the_table_at_the_place() {
    let input = "[[plugins]]\nrepo = \"é/x\"\n\n[[plugins]]\nrepo = 'a/b'\nstart = true\nwith = []\n";
    let second = input.rfind("[[plugins]]").unwrap();
    let fields = plugin_fields(input, second, second + 11).unwrap();
    let read: Vec<(&str, &str)> =
        fields.iter().map(|f| (f.key.as_str(), f.text.as_str())).collect();
    assert_eq!(read, [("repo", "'a/b'"), ("start", "true"), ("with", "[]")]);
    assert!(fields.iter().all(|f| input[f.start..f.end] == f.text));
    assert_eq!(plugin_fields(input, 0, 11).unwrap()[0].text, "\"é/x\"");
    assert_eq!(parse_probes(input, second, second + 11).unwrap().len(), 3);
    // No table stands there, there are no plugins, and this is no TOML.
    assert!(plugin_fields(input, 1, 11).is_none());
    assert!(plugin_fields("plugins = 1\n", 0, 11).is_none());
    assert!(plugin_fields("[[plugins]\n", 0, 11).is_none());
    // What is no value, or is cut inside a character, is no field.
    let tables = Some(vec![TableText {
        place: Some((0, 11)),
        items: vec![
            ("keys".to_string(), None),
            ("half".to_string(), Some((19, 21))),
            ("repo".to_string(), Some((19, 25))),
        ],
    }]);
    let fields = fields_in(&tables, input, 0, 11).unwrap();
    assert_eq!(fields.len(), 1);
    assert_eq!((fields[0].key.as_str(), fields[0].text.as_str()), ("repo", "\"é/x\""));
    assert!(fields_in(&None, input, 0, 11).is_none());
}

#[test]
fn patterns_are_files_or_searched_for() {
    let sources = part_patterns(
        &strings(&["-", "a.toml", "conf/*.toml", "-"]),
        &vec![true, true, false, false],
    );
    assert_eq!(
        sources.direct,
        vec![
            DirectFile::Stdin,
            DirectFile::Named("a.toml".to_string()),
            DirectFile::Stdin
        ]
    );
    assert_eq!(sources.globs, vec!["conf/*.toml"]);
    assert!(is_ignorable_walk_error(WalkErrorKind::NotADirectory));
    assert!(!is_ignorable_walk_error(WalkErrorKind::Other));
}

#[test]
fn answers_name_the_repositories_of_a_chunk() {
    let wanted = |repo: &str| GithubRev {
        owner: "o".to_string(),
        repo: repo.to_string(),
        rev: None,
    };
    let chunk = vec![wanted("a"), wanted("b")];
    let found = vec![ResolvedRev {
        owner: "o".to_string(),
        repo: "b".to_string(),
        oid: Some("beef".to_string()),
    }];
    assert_eq!(
        chunk_answers(&chunk, &Some(found)),
        vec![
            ("github.com/o/a".to_string(), None),
            ("github.com/o/b".to_string(), Some("beef".to_string())),
        ]
    );
    assert_eq!(
        chunk_answers(&chunk, &None),
        vec![
            ("github.com/o/a".to_string(), None),
            ("github.com/o/b".to_string(), None),
        ]
    );
}

#[test]
fn late_parts_begin_once() {
    let mut s = Scheduler::new(plain());
    let mut todo = s.plugin_read("a".to_string(), None).ok().unwrap();
    todo.extend(s.parsed(&strings(&["a"]), &vec![Vec::new()]));
    assert_eq!(run_all(&mut s, todo, EarlyEnd::Ready), vec![0]);
    assert!(s.early_done(EarlyKey::Node(0), EarlyEnd::Ready).is_empty());
    assert!(s.late_done(0).is_empty());
    assert!(s.graph.nodes[0].phase == Phase::Finished);
}

#[test]
fn names_match_patterns() {
    assert!(name_matches("*.toml", "a.toml"));
    assert!(name_matches("?.toml", "a.toml"));
    assert!(!name_matches("?.toml", "ab.toml"));
    assert!(name_matches("a*b*c", "aXbYc"));
    assert!(!name_matches("a*b*c", "aXc"));
    assert!(name_matches("*", ""));
    assert!(!name_matches("", "a"));
    // Stars do not cross slashes, and two of them stand for directories.
    assert!(!name_matches("*", "a/b"));
    assert!(name_matches("a/**/b", "a/b"));
    assert!(name_matches("a/**/b", "a/x/y/b"));
    assert!(!name_matches("a/**/b", "a/xb"));
    assert!(name_matches("**/b", "b"));
    assert!(name_matches("a/**", "a/x/y"));
    assert!(!name_matches("a/**", "a"));
    assert!(name_matches("a**b", "axxb"));
    assert!(!name_matches("a**b", "a/b"));
    // Classes.
    assert!(name_matches("[a-c]x", "bx"));
    assert!(!name_matches("[a-c]x", "dx"));
    assert!(name_matches("[!a-c]x", "dx"));
    assert!(name_matches("[^a]", "b"));
    assert!(name_matches("[]a]", "]"));
    assert!(name_matches("[a-]", "-"));
    assert!(name_matches("[\\]]", "]"));
    assert!(!name_matches("[a", "[a"));
    assert!(!name_matches("[!a]", "/"));
    // A backslash takes the meaning from what follows it.
    assert!(name_matches("\\*", "*"));
    assert!(!name_matches("\\*", "a"));
    assert!(!name_matches("\\", "\\"));
}

#[test]
fn the_last_rule_decides_what_is_left_out() {
    let rules = strings(&["# docs", "", "*.md", "/tests/", "!KEEP.md"]);
    assert!(is_ignored(&rules, "README.md", false));
    assert!(!is_ignored(&rules, "KEEP.md", false));
    assert!(is_ignored(&rules, "tests", true));
    assert!(!is_ignored(&rules, "tests", false));
    assert!(!is_ignored(&rules, "lua", true));
    assert!(!is_ignored(&rules, "# docs", false));
    let rules = strings(&["[Mm]akefile", "\\#x", "\\!y", "a/b", "**/c", "d/**", "/e", "f  ", "g\\ "]);
    assert!(is_ignored(&rules, "Makefile", false));
    assert!(is_ignored(&rules, "makefile", false));
    assert!(is_ignored(&rules, "#x", false));
    assert!(is_ignored(&rules, "!y", false));
    assert!(!is_ignored(&rules, "b", false));
    assert!(is_ignored(&rules, "a/b", false));
    assert!(!is_ignored(&rules, "x/a/b", false));
    assert!(is_ignored(&rules, "c", false));
    assert!(is_ignored(&rules, "x/c", false));
    assert!(!is_ignored(&rules, "d", true));
    assert!(is_ignored(&rules, "d/x", false));
    assert!(is_ignored(&rules, "e", false));
    assert!(!is_ignored(&rules, "x/e", false));
    assert!(is_ignored(&rules, "f", false));
    assert!(is_ignored(&rules, "g ", false));
    assert!(!is_ignored(&rules, "g", false));
    let documented = strings(&["tests/", "*.md", ".github/"]);
    assert!(is_ignored(&documented, "tests", true));
    assert!(is_ignored(&documented, "README.md", false));
    assert!(is_ignored(&documented, ".github", true));
    assert!(!is_ignored(&documented, "tests", false));
    let standard: Vec<String> = DEFAULT_IGNORE.lines().map(str::to_string).collect();
    assert!(is_ignored(&standard, ".github", true));
    assert!(!is_ignored(&standard, "plugin", true));
}

#[test]
fn updates_resolve_what_is_installed() {
    let settings = || Settings {
        locked: false,
        update: true,
        do_graphql: true,
    };
    let wanted = || GithubRev {
        owner: "o".to_string(),
        repo: "r".to_string(),
        rev: None,
    };
    let asked = |s: &mut Scheduler| {
        let asked = s.plugin_read("p".to_string(), Some(github("r", None)));
        assert!(matches!(
            asked.ok().unwrap().as_slice(),
            [Action::CheckCatalog { id, canonical, .. }]
                if id == "p" && canonical == "github.com/o/r"
        ));
    };

    let mut s = Scheduler::new(settings());
    asked(&mut s);
    let acts = s.catalog_done(
        "p".to_string(),
        "github.com/o/r".to_string(),
        wanted(),
        false,
    );
    assert!(matches!(
        acts.as_slice(),
        [Action::StartEarly {
            rev: Rev::Resolved(None),
            ..
        }]
    ));

    let mut s = Scheduler::new(settings());
    asked(&mut s);
    let acts = s.catalog_done("p".to_string(), "github.com/o/r".to_string(), wanted(), true);
    assert!(acts.is_empty());
    let acts = s.parsed(&vec!["p".to_string()], &vec![Vec::new()]);
    assert!(acts
        .iter()
        .any(|a| matches!(a, Action::Resolve { chunk } if chunk.len() == 1)));

    // What is found out only after the files are read is not resolved in a batch any more.
    let mut s = Scheduler::new(settings());
    asked(&mut s);
    s.parsed(&vec!["p".to_string()], &vec![Vec::new()]);
    let acts = s.catalog_done("p".to_string(), "github.com/o/r".to_string(), wanted(), true);
    assert!(acts.is_empty());
    let acts = s.nothing_left().ok().unwrap();
    assert!(matches!(
        acts.as_slice(),
        [Action::StartEarly {
            rev: Rev::Resolved(None),
            ..
        }]
    ));
}

#[test]
fn installed_revisions_are_used_again() {
    let mode = |install: bool, update: bool| Mode {
        install,
        update,
        locked: false,
    };
    let oid = |s: &str| Some(s.to_string());
    assert!(matches!(
        choose_revision(mode(false, false), None, oid("old")),
        Choice::Use { oid } if oid == "old"
    ));
    assert!(matches!(choose_revision(mode(false, false), None, None), Choice::Skip));
    assert!(matches!(choose_revision(mode(true, false), None, None), Choice::Ask));
    assert!(matches!(
        choose_revision(mode(true, false), None, oid("old")),
        Choice::Use { oid } if oid == "old"
    ));
    assert!(matches!(choose_revision(mode(false, true), None, oid("old")), Choice::Ask));
    assert!(matches!(
        choose_revision(mode(false, true), oid("new"), oid("old")),
        Choice::Use { oid } if oid == "new"
    ));
    assert!(runs_post_update(mode(false, true), &oid("old"), "new"));
    assert!(!runs_post_update(mode(false, true), &oid("old"), "old"));
    assert!(!runs_post_update(mode(false, true), &None, "new"));
    assert!(!runs_post_update(mode(true, false), &oid("old"), "new"));
}

/// Whether every plugin of the text has a repository and file types of the right form.
fn is_accepted(text: &str) -> bool {
    let Ok(table) = toml::from_str::<toml::Table>(text) else {
        return false;
    };
    let Some(plugins) = table.get("plugins").and_then(toml::Value::as_array) else {
        return false;
    };
    plugins.iter().all(|plugin| {
        let repo = plugin.get("repo").and_then(toml::Value::as_str);
        let has_repo = repo.is_some_and(|repo| RepoSource::parse(repo).is_some());
        let has_fts = match plugin.get("on_ft") {
            None => true,
            Some(toml::Value::Array(list)) => list.iter().all(toml::Value::is_str),
            Some(ft) => ft.is_str(),
        };
        has_repo && has_fts
    })
}

/// The message for a file that is wrong from `start` to `end`.
fn rendered(path: &str, input: &str, start: usize, end: usize, message: &str) -> String {
    assert!(is_shown(input, start, end));
    format_toml_parse_error(path, input, start, end, message)
        .into_iter()
        .map(|piece| piece.text)
        .collect()
}

#[test]
fn parse_error_span_points_at_offending_value_not_header() {
    let cases: &[(&str, &str, &str)] = &[
        ("[[plugins]]\nrepo = 1 #\"x\"\n", "repo = 1", "1"),
        (
            "[[plugins]]\nrepo = \"badformat\"\n",
            "\"badformat\"",
            "\"badformat\"",
        ),
        (
            "[[plugins]]\nrepo = \"owner/x\"\non_ft = 7\n",
            "on_ft = 7",
            "7",
        ),
    ];
    for (input, want_line, want_token) in cases {
        assert!(!is_accepted(input), "expected parse error for {input:?}");
        let probes = parse_probes(input, 0, 11).unwrap();
        let refused: Vec<bool> = probes.iter().map(|probe| !is_accepted(&probe.text)).collect();
        let span = refine_parse_error_span(input, 0, 11, &refused);
        let (start, end) = span.expect("span should be refined");
        assert_eq!(&input[start..end], *want_token, "for {input:?}");
        let rendered = rendered("x", input, start, end, "message");
        assert!(
            rendered.contains(want_line),
            "missing line {want_line:?} in:\n{rendered}"
        );
        assert!(
            !rendered.contains(" 1 | [[plugins]]"),
            "still pointing at header:\n{rendered}"
        );
    }
}

#[test]
fn toml_parse_error_format_includes_source_snippet() {
    let input = "[[plugins]]\nrepo = \"owner/plugin\"\nstart = tru\n";
    let err = match toml::from_str::<toml::Table>(input) {
        Ok(_) => panic!("expected parse error"),
        Err(err) => err,
    };
    let span = err.span().unwrap();
    let rendered = rendered("bad.toml", input, span.start, span.end, err.message());

    assert!(rendered.contains("failed to parse config"));
    assert!(rendered.contains("bad.toml:3:9"));
    assert!(rendered.contains("start = tru"));
    assert!(rendered.contains("^"));
    assert!(rendered.contains("invalid boolean"), "{rendered}");

    for line in rendered.lines() {
        if let Some(pos) = line.find('|') {
            assert_eq!(pos, 3, "gutter pipe misaligned: {line:?}");
        }
    }
}

#[test]
fn errors_without_a_place_are_told() {
    assert_eq!(
        format_unplaced_error("a.toml", "bad"),
        "failed to parse config a.toml: bad"
    );
    assert_eq!(
        rendered("a.toml", "x = 1\ny = ?\n", 10, 11, "bad"),
        "failed to parse config\n --> a.toml:2:5\n   |\n 2 | y = ?\n   |     ^ bad"
    );
    assert!(!is_shown("é", 1, 2));
    assert!(!is_shown("x", usize::MAX, 2));
    assert!(is_shown("x", 1, 1));
    // A place behind the end is in the last line; an end before the start is not looked at.
    assert_eq!(
        rendered("a.toml", "x = 1\ny", 9, 12, "bad"),
        "failed to parse config\n --> a.toml:2:4\n   |\n 2 | y\n   |    ^ bad"
    );
    assert_eq!(
        rendered("a.toml", "x = 1\ny = ?\n", 10, 3, "bad"),
        "failed to parse config\n --> a.toml:2:5\n   |\n 2 | y = ?\n   |     ^ bad"
    );
}

/// What is left of an action when places in chunks do not count.
fn told(acts: &[Action]) -> Vec<String> {
    let mut list: Vec<String> = Vec::new();
    for act in acts {
        match act {
            Action::Resolve { chunk } => {
                list.extend(chunk.iter().map(|g| format!("ask {}/{}", g.owner, g.repo)))
            }
            Action::Progress { .. } => {}
            other => list.push(format!("{other:?}")),
        }
    }
    list.sort();
    list
}

#[test]
fn plugins_can_be_read_in_any_order() {
    let read = |order: &[usize]| {
        let mut s = Scheduler::new(Settings {
            locked: false,
            update: false,
            do_graphql: true,
        });
        let mut acts = Vec::new();
        for i in order {
            let request = match i {
                0 => None,
                1 => Some(github("a", None)),
                2 => Some(github("b", Some("v*"))),
                _ => Some(github("a", None)),
            };
            acts.extend(s.plugin_read(format!("p{i}"), request).ok().unwrap());
        }
        acts.extend(s.parsed(
            &strings(&["p0", "p1", "p2", "p3"]),
            &vec![strings(&["p1"]), Vec::new(), Vec::new(), strings(&["p2"])],
        ));
        let told = told(&acts);
        let answer = vec![("github.com/o/a".to_string(), Some("beef".to_string()))];
        acts.extend(s.chunk_done(&answer));
        let mut late = run_all(&mut s, acts, EarlyEnd::Ready);
        late.sort();
        assert!(s.graph.nodes.iter().all(|n| n.phase == Phase::Finished));
        (told, late)
    };
    let first = read(&[0, 1, 2, 3]);
    assert_eq!(first.1, [0, 1, 2, 3]);
    assert_eq!(read(&[3, 2, 1, 0]), first);
    assert_eq!(read(&[2, 0, 3, 1]), first);
    // Two revisions of one repository are refused in either order.
    for (one, other) in [("v1", "v2"), ("v2", "v1")] {
        let mut s = Scheduler::new(plain());
        assert!(s.plugin_read("a".to_string(), Some(github("r", Some(one)))).is_ok());
        assert!(s.plugin_read("b".to_string(), Some(github("r", Some(other)))).is_err());
    }
}

#[test]
fn outcomes_can_come_in_any_order() {
    let outcome = |n: u8| -> Result<Outcome<u8>, String> {
        Ok(Outcome {
            loaded: Some((n, Some((format!("r{n}"), format!("v{n}"))))),
            canon_to_remove: None,
        })
    };
    let collect = |order: [u8; 3]| {
        let all = collect_outcomes(order.into_iter().map(outcome).collect()).ok().unwrap();
        let mut plugins = all.plugins;
        let mut locks = all.lock_infos;
        plugins.sort();
        locks.sort();
        (plugins, locks)
    };
    assert_eq!(collect([1, 2, 3]), collect([3, 1, 2]));
}

#[test]
fn revisions_are_resolved_together_where_they_may_be_asked_for() {
    let mode = |install: bool, update: bool, locked: bool| Mode {
        install,
        update,
        locked,
    };
    assert!(mode(true, false, false).resolves_together(true));
    assert!(mode(false, true, false).resolves_together(true));
    assert!(!mode(false, false, false).resolves_together(true));
    assert!(!mode(true, false, true).resolves_together(true));
    assert!(!mode(true, true, false).resolves_together(false));
    assert!(mode(true, false, false).uses_archive(true, false));
    assert!(mode(false, true, true).uses_archive(true, false));
    assert!(!mode(true, true, false).uses_archive(false, false));
    assert!(!mode(true, true, false).uses_archive(true, true));
    assert!(!mode(false, false, true).uses_archive(true, false));
}

#[test]
fn locks_of_plugins_that_are_not_there_are_given_up() {
    let canonical = || Some("github.com/o/r".to_string());
    let lock = Some(("github.com/o/r".to_string(), "abc".to_string()));
    let there = Outcome::of_late(Some((7u8, lock.clone())), canonical());
    assert_eq!(there.loaded, Some((7u8, lock)));
    assert_eq!(there.canon_to_remove, None);
    let gone: Outcome<u8> = Outcome::of_late(None, canonical());
    assert_eq!((gone.loaded, gone.canon_to_remove), (None, canonical()));
    let early = |ended| -> Result<Outcome<u8>, String> { Outcome::of_early(ended) };
    assert_eq!(early(Some(Err("bad".to_string()))).err(), Some("bad".to_string()));
    assert_eq!(early(Some(Ok(canonical()))).unwrap().canon_to_remove, canonical());
    assert_eq!(early(None).unwrap().canon_to_remove, None);
}
