use rsplug::log::Message;
use rsplug::path::Path;
use rsplug::progress::manager::{last_branch, ProgressManager};
use rsplug::progress::process::fill;
use rsplug::progress::{
    BarRef, ChildKey, Look, Place, Span, Tone, UiOp, CACHE_FETCH_DONE_ID, CACHE_FETCH_PROGRESS_ID,
    CACHE_FETCH_STAGE_ID, CONFIG_FILES, GRAPHQL_PROGRESS_ID, LOADING,
};

fn text(spans: &[Span]) -> String {
    spans.iter().map(|s| s.text.as_str()).collect()
}

/// What was printed above the bars.
fn printed(ops: &[UiOp]) -> String {
    let mut out = Vec::new();
    for op in ops {
        if let UiOp::Print(block) = op {
            out.push(text(block));
        }
    }
    out.join("\n")
}

fn cache(m: &mut ProgressManager, stage: &str, url: &str) {
    m.process(Message::Cache(stage.to_string(), url.to_string()));
}

fn objects(m: &mut ProgressManager, id: &str, total: usize, received: usize) {
    m.process(Message::CacheFetchObjectsProgress {
        id: id.to_string(),
        total_objs_count: total,
        received_objs_count: received,
    });
}

fn named(name: &str) -> BarRef {
    BarRef::Named(name.to_string())
}

#[test]
fn loading_bar_freezes_at_load_done_and_clears_at_merge_finished() {
    let mut m = ProgressManager::new();

    m.process(Message::LoadBegin { total: 2 });
    assert!(m.progress_bars.contains_key(LOADING));
    assert!(!m.take_ops().contains(&UiOp::Clear(named(LOADING))));

    m.process(Message::LoadPluginDone);
    m.process(Message::LoadPluginDone);
    assert_eq!(m.progress_bars.get(LOADING).unwrap().position, 2);

    m.process(Message::LoadDone);
    assert!(
        m.progress_bars.contains_key(LOADING),
        "LoadDone must keep the loading bar for MergeFinished"
    );
    let ops = m.take_ops();
    assert!(ops.contains(&UiOp::StopTick(named(LOADING))));
    assert!(!ops.contains(&UiOp::Clear(named(LOADING))));

    m.process(Message::MergeFinished {
        total: 2,
        merged: 1,
    });
    assert!(
        !m.progress_bars.contains_key(LOADING),
        "MergeFinished must remove the loading bar"
    );
    let ops = m.take_ops();
    assert!(ops.contains(&UiOp::Clear(named(LOADING))));
    assert_eq!(printed(&ops), "✓ Loaded 2 plugins · 📦 1");
}

#[test]
fn graphql_resolve_progress_clears_after_completion() {
    let mut m = ProgressManager::new();

    m.process(Message::GraphQLResolveProgress {
        resolved: 0,
        total: 124,
    });
    assert!(m.progress_bars.contains_key(GRAPHQL_PROGRESS_ID));
    m.process(Message::GraphQLResolveProgress {
        resolved: 124,
        total: 124,
    });

    assert!(
        !m.progress_bars.contains_key(GRAPHQL_PROGRESS_ID),
        "completed GraphQL progress must be cleared"
    );
    assert!(m
        .take_ops()
        .contains(&UiOp::Clear(named(GRAPHQL_PROGRESS_ID))));
    assert!(m.child_order.is_empty());
}

#[test]
fn config_summary_is_printed_line_by_line() {
    let mut m = ProgressManager::new();
    for name in ["alpha", "beta", "gamma"] {
        m.process(Message::ConfigFound(Path::parse(&format!(
            "/tmp/rsplug/{name}.toml"
        ))));
    }
    m.take_ops();
    m.process(Message::ConfigWalkFinish);
    let ops = m.take_ops();
    assert_eq!(
        printed(&ops),
        "Config 3 files\n    /tmp/rsplug (3)\n        alpha beta gamma"
    );
    assert!(ops.contains(&UiOp::Clear(named(CONFIG_FILES))));
    assert!(ops.contains(&UiOp::Print(vec![
        Span {
            tone: Tone::DimBlue,
            text: "Config".to_string()
        },
        Span {
            tone: Tone::Plain,
            text: " 3 files".to_string()
        },
    ])));
    assert!(!m.progress_bars.contains_key(CONFIG_FILES));
}

#[test]
fn warn_not_installed_truncates_each_name_individually() {
    let mut m = ProgressManager::new();

    m.process(Message::PluginNotInstalled(
        "abcdefghijklmnopqrstuvwxyz".to_string(),
    ));
    m.process(Message::PluginNotInstalled("short".to_string()));

    m.process(Message::LoadDone);
    m.process(Message::MergeFinished {
        total: 2,
        merged: 2,
    });

    let rendered = printed(&m.take_ops());
    assert!(
        rendered.contains("……"),
        "long name should be truncated individually; got:\n{rendered}"
    );
    assert!(
        rendered.contains("short"),
        "short name should be shown as-is; got:\n{rendered}"
    );
    assert!(
        rendered.contains("2 plugins not installed"),
        "header should report the count; got:\n{rendered}"
    );
    assert_eq!(
        rendered,
        "⚠ 2 plugins not installed (run with -i to install)\n    abcdefghijklmnopqr…… · short\n✓ Loaded 2 plugins"
    );
}

#[test]
fn warn_not_installed_ellipsis_when_more_than_three() {
    let mut m = ProgressManager::new();

    for s in ["aaaa", "bbbb", "cccc", "dddd"] {
        m.process(Message::PluginNotInstalled(s.to_string()));
    }
    m.process(Message::LoadDone);
    m.process(Message::MergeFinished {
        total: 4,
        merged: 4,
    });

    let rendered = printed(&m.take_ops());
    assert!(
        rendered.contains("4 plugins not installed"),
        "header should report 4; got:\n{rendered}"
    );
    assert!(
        rendered.contains(" …"),
        "remaining plugins should be elided; got:\n{rendered}"
    );
    assert!(rendered.contains("aaaa"), "got:\n{rendered}");
    assert!(
        !rendered.contains("dddd"),
        "4th should be hidden; got:\n{rendered}"
    );
}

#[test]
fn warn_dotgit_missing_uses_refresh_hint() {
    let mut m = ProgressManager::new();

    m.process(Message::PluginDotgitMissing("dotgit-plugin".to_string()));
    m.process(Message::InstallDone);

    let rendered = printed(&m.take_ops());
    assert!(
        rendered.contains("dotgit plugins missing `.git`"),
        "dotgit warning should explain the missing payload; got:\n{rendered}"
    );
    assert!(
        rendered.contains("run with -u to refresh"),
        "dotgit warning should point at -u; got:\n{rendered}"
    );
}

#[test]
fn updated_block_lists_names_with_ellipsis() {
    let mut m = ProgressManager::new();

    for s in ["aaaa", "bbbb", "cccc", "dddd"] {
        m.process(Message::PluginUpdated(s.to_string()));
    }
    m.process(Message::LoadDone);
    m.process(Message::MergeFinished {
        total: 4,
        merged: 4,
    });

    let rendered = printed(&m.take_ops());
    assert!(
        rendered.contains("Updated 4 plugins"),
        "header should report 4 updated; got:\n{rendered}"
    );
    assert!(
        rendered.contains(" …"),
        "remaining plugins should be elided; got:\n{rendered}"
    );
    assert!(rendered.contains("aaaa"), "got:\n{rendered}");
    assert!(
        !rendered.contains("dddd"),
        "4th should be hidden; got:\n{rendered}"
    );
}

#[test]
fn fetch_object_progress_aggregates_all_repos() {
    let mut m = ProgressManager::new();

    objects(&mut m, "a", 100, 40);
    objects(&mut m, "b", 50, 10);
    objects(&mut m, "a", 120, 60);

    let pb = m
        .progress_bars
        .get(CACHE_FETCH_PROGRESS_ID)
        .expect("object progress bar");
    assert_eq!(pb.length, Some(170));
    assert_eq!(pb.position, 70);
    // 70 of 170 objects are 41 percent.
    assert_eq!(m.take_ops().last(), Some(&UiOp::Title(Some(41))));
}

#[test]
fn fetching_and_fetched_are_separate_rows() {
    let mut m = ProgressManager::new();

    cache(&mut m, "Fetching", "file:///x/a");
    cache(&mut m, "Fetching", "file:///x/b");
    cache(&mut m, "Fetching:done", "file:///x/a");

    assert!(
        m.progress_bars.contains_key(CACHE_FETCH_STAGE_ID),
        "Fetching bar must exist while b is inflight"
    );
    assert!(
        m.progress_bars.contains_key(CACHE_FETCH_DONE_ID),
        "fetched bar must exist for completed a"
    );
    assert_eq!(
        m.ordered_children(),
        vec![ChildKey::FetchStage, ChildKey::FetchDone],
        "Fetching and fetched must be distinct bars in order"
    );
    assert_eq!(m.cache_fetching_current.as_deref(), Some("file:///x/b"));
    assert_eq!(m.cache_fetch_done_url.as_deref(), Some("file:///x/a"));
}

#[test]
fn fetching_row_order_with_updating_and_objects() {
    let mut m = ProgressManager::new();

    cache(&mut m, "Updating", "file:///x/a");
    cache(&mut m, "Fetching", "file:///x/a");
    cache(&mut m, "Fetching", "file:///x/b");
    cache(&mut m, "Fetching:done", "file:///x/a");
    objects(&mut m, "a", 10, 5);

    assert_eq!(
        m.ordered_children(),
        vec![
            ChildKey::Updating,
            ChildKey::FetchStage,
            ChildKey::FetchDone,
            ChildKey::FetchProgress,
        ],
        "display order must be Updating<Fetching<fetched<Objects"
    );
    let places: Vec<Place> = m
        .take_ops()
        .into_iter()
        .filter_map(|op| match op {
            UiOp::Add { place, .. } => Some(place),
            _ => None,
        })
        .collect();
    assert_eq!(
        places,
        vec![
            Place::End,
            Place::End,
            Place::After(BarRef::Updating),
            Place::After(named(CACHE_FETCH_STAGE_ID)),
            Place::After(named(CACHE_FETCH_DONE_ID)),
        ]
    );
}

#[test]
fn fetching_concurrent_urls_keep_current() {
    let mut m = ProgressManager::new();

    cache(&mut m, "Fetching", "file:///x/aaaaaaaa");
    cache(&mut m, "Fetching", "file:///x/bbbbbbbb");

    assert_eq!(m.fetching_count(), 2, "both URLs are inflight");
    assert_eq!(
        m.cache_fetching_current.as_deref(),
        Some("file:///x/aaaaaaaa"),
        "current must stay as the first URL"
    );
}

#[test]
fn fetching_bar_blanks_when_no_inflight() {
    let mut m = ProgressManager::new();

    cache(&mut m, "Fetching", "file:///x/a");
    cache(&mut m, "Fetching:done", "file:///x/a");

    assert!(
        m.progress_bars.contains_key(CACHE_FETCH_STAGE_ID),
        "Fetching bar must remain (blank, not cleared)"
    );
    assert!(
        m.fetch_stage_is_blank,
        "Fetching bar must be blank when no inflight"
    );
    assert_eq!(m.fetching_count(), 0, "inflight set must be empty");
    assert!(
        m.progress_bars.contains_key(CACHE_FETCH_DONE_ID),
        "fetched bar must remain"
    );

    cache(&mut m, "Fetching", "file:///x/b");
    assert!(
        m.progress_bars.contains_key(CACHE_FETCH_STAGE_ID),
        "Fetching bar must still exist"
    );
    assert!(
        !m.fetch_stage_is_blank,
        "Fetching bar must resume from blank"
    );
    assert_eq!(
        m.ordered_children(),
        vec![ChildKey::FetchStage, ChildKey::FetchDone],
        "Fetching must stay above fetched"
    );
}

#[test]
fn fetch_done_idle_respects_generation() {
    let mut m = ProgressManager::new();

    cache(&mut m, "Fetching", "file:///x/a");
    cache(&mut m, "Fetching:done", "file:///x/a");
    assert!(!m.fetch_done_is_blank, "fetched is active after done");
    assert!(m.take_ops().contains(&UiOp::Timer(1)));

    m.process(Message::FetchDoneIdle { idle_gen: 0 });
    assert!(!m.fetch_done_is_blank, "stale idle must be ignored");

    cache(&mut m, "Fetching", "file:///x/b");
    cache(&mut m, "Fetching:done", "file:///x/b");
    m.process(Message::FetchDoneIdle { idle_gen: 1 });
    assert!(!m.fetch_done_is_blank, "idle with old gen must be ignored");

    m.process(Message::FetchDoneIdle { idle_gen: 2 });
    assert!(
        m.fetch_done_is_blank,
        "current gen idle must blank the fetched row"
    );
}

#[test]
fn fetched_connector_follows_fetch_last() {
    let mut m = ProgressManager::new();

    cache(&mut m, "Fetching", "file:///x/a");
    cache(&mut m, "Fetching:done", "file:///x/a");
    assert_eq!(
        last_branch(&m.ordered_children()),
        Some(ChildKey::FetchStage),
        "Fetching is last level1 when no Objects"
    );
    assert!(m
        .take_ops()
        .contains(&UiOp::Redraw(named(CACHE_FETCH_DONE_ID), Look::NoteLast)));

    objects(&mut m, "a", 10, 5);
    assert_eq!(
        last_branch(&m.ordered_children()),
        Some(ChildKey::FetchProgress),
        "Objects is last level1 when present"
    );
    let ops = m.take_ops();
    assert!(ops.contains(&UiOp::Redraw(named(CACHE_FETCH_DONE_ID), Look::NoteMid)));
    assert!(ops.contains(&UiOp::Redraw(named(CACHE_FETCH_STAGE_ID), Look::BlankMid)));
    assert!(ops.contains(&UiOp::Redraw(named(CACHE_FETCH_PROGRESS_ID), Look::BarLast)));
}

#[test]
fn loading_running_events_before_load_begin_do_not_underflow() {
    let mut m = ProgressManager::new();

    m.process(Message::LoadPluginRunning);
    m.process(Message::LoadBegin { total: 1 });
    assert_eq!(m.loading_running, Some(1));

    m.process(Message::LoadPluginRunningDone);
    assert_eq!(
        m.loading_running,
        Some(0),
        "a pre-LoadBegin start must be paired without usize underflow"
    );
    m.process(Message::LoadPluginRunningDone);
    assert_eq!(m.loading_running, Some(0));
}

#[test]
fn running_count_is_shown_before_anything_is_done() {
    let mut m = ProgressManager::new();
    m.process(Message::LoadBegin { total: 10 });
    for _ in 0..3 {
        m.process(Message::LoadPluginRunning);
    }
    assert_eq!(m.take_ops().last(), Some(&UiOp::Running(3)));
    m.process(Message::LoadPluginDone);
    m.process(Message::LoadPluginDone);
    assert_eq!(m.progress_bars.get(LOADING).unwrap().position, 2);
    assert_eq!(m.progress_bars.get(LOADING).unwrap().length, Some(10));
}

#[test]
fn updating_shows_the_first_url_and_then_another() {
    let mut m = ProgressManager::new();
    cache(&mut m, "Updating", "u1");
    cache(&mut m, "Updating", "u2");
    assert_eq!(m.cache_updating_current.as_deref(), Some("u1"));
    m.take_ops();
    cache(&mut m, "Updating:done", "u1");
    assert_eq!(m.cache_updating_current.as_deref(), Some("u2"));
    let ops = m.take_ops();
    assert_eq!(
        ops,
        vec![UiOp::Message(
            BarRef::Updating,
            vec![Span {
                tone: Tone::Plain,
                text: "u2".to_string()
            }]
        )]
    );
    cache(&mut m, "Updating:done", "u2");
    assert_eq!(m.cache_updating_current, None);
    assert!(m.take_ops().is_empty(), "the last url stays shown");
}

#[test]
fn other_stages_have_lines_of_their_own() {
    let mut m = ProgressManager::new();
    m.take_ops();
    cache(&mut m, "Resolving", "x");
    assert!(m.progress_bars.contains_key("Resolving"));
    assert_eq!(m.take_ops().len(), 2);
    cache(&mut m, "Resolving", "x");
    assert!(m.take_ops().is_empty(), "the same message is not set twice");
}

#[test]
fn builds_show_their_last_line_and_a_summary() {
    let mut m = ProgressManager::new();
    m.take_ops();
    let line = |line: &str| Message::CacheBuildProgress {
        id: "p (sh)".to_string(),
        stdtype: 1,
        line: line.to_string(),
    };
    m.process(line("  \r"));
    assert!(m.take_ops().is_empty());
    m.process(line("10%\r20%"));
    let ops = m.take_ops();
    match &ops[0] {
        UiOp::Add { bar, prefix, .. } => {
            assert_eq!(bar, &named("p (sh)"));
            assert_eq!(prefix, "Building [p (sh)]             ");
            assert_eq!(prefix.len(), 30);
        }
        other => panic!("expected a new bar, got {other:?}"),
    }
    match &ops[1] {
        UiOp::Message(_, message) => assert_eq!(text(message), "1> 20%"),
        other => panic!("expected a message, got {other:?}"),
    }
    assert_eq!(
        m.child_order,
        vec![ChildKey::Building("p (sh)".to_string())]
    );
    m.process(Message::CacheBuildFinished {
        id: "p (sh)".to_string(),
        success: false,
    });
    let ops = m.take_ops();
    match (&ops[1], &ops[2]) {
        (UiOp::Prefix(_, prefix), UiOp::Finish(_, message)) => {
            assert_eq!(text(prefix), "✗ Build");
            assert_eq!(text(message), "[p (sh)] failed");
        }
        other => panic!("expected a summary, got {other:?}"),
    }
    assert!(m.child_order.is_empty());
}

#[test]
fn wide_prefixes_are_filled_by_their_columns() {
    // Each of these characters takes two columns.
    let mut m = ProgressManager::new();
    m.take_ops();
    m.process(Message::CacheBuildProgress {
        id: "日本".to_string(),
        stdtype: 2,
        line: "x".to_string(),
    });
    match &m.take_ops()[0] {
        UiOp::Add { prefix, .. } => assert_eq!(prefix.chars().count(), 28),
        other => panic!("expected a new bar, got {other:?}"),
    }
    assert_eq!(fill("ab".to_string(), 28), "ab  ");
    assert_eq!(fill("ab".to_string(), 31), "ab");
}

#[test]
fn installation_counts_what_was_skipped_and_copied() {
    let mut m = ProgressManager::new();
    m.process(Message::InstallSkipped("a".to_string()));
    m.process(Message::InstallSkipped("b".to_string()));
    m.process(Message::InstallYank {
        id: "c".to_string(),
        which: Path::parse("lua/c.lua"),
    });
    m.process(Message::InstallHelp {
        help_dir: Path::parse("/x/doc"),
    });
    m.take_ops();
    m.process(Message::InstallDone);
    let finished: Vec<String> = m
        .take_ops()
        .iter()
        .filter_map(|op| match op {
            UiOp::Finish(_, message) => Some(text(message)),
            UiOp::ClearTitle => Some("title".to_string()),
            _ => None,
        })
        .collect();
    assert_eq!(finished, vec!["title", "2 packages", "1 files"]);
}

#[test]
fn load_done_clears_every_bar_but_the_loading_bar() {
    let mut m = ProgressManager::new();
    cache(&mut m, "Updating", "u");
    cache(&mut m, "Fetching", "u");
    objects(&mut m, "u", 4, 4);
    m.process(Message::LoadBegin { total: 1 });
    m.process(Message::LoadDone);
    assert!(m.progress_bars.contains_key(LOADING));
    for name in [
        CONFIG_FILES,
        CACHE_FETCH_STAGE_ID,
        CACHE_FETCH_DONE_ID,
        CACHE_FETCH_PROGRESS_ID,
    ] {
        assert!(!m.progress_bars.contains_key(name));
    }
    assert!(m.updating_bar.is_none());
    assert!(m.child_order.is_empty());
    assert!(!m.titled);
}

#[test]
fn single_lines_are_printed_as_they_come() {
    let mut m = ProgressManager::new();
    m.process(Message::DetectLockFile(Path::parse("/x/rsplug.lock")));
    m.process(Message::GraphQLBatchFailed {
        reason: "timeout".to_string(),
    });
    assert_eq!(
        printed(&m.take_ops()),
        "✓ Lockfile /x/rsplug.lock\n✗ GraphQL batch failed (timeout); falling back to per-repo resolution"
    );
    m.process(Message::Error("broken".to_string()));
    assert_eq!(m.take_ops(), vec![UiOp::Error("broken".to_string())]);
    m.process(Message::PluginInstalled("p".to_string()));
    m.process(Message::MergeFinished {
        total: 3,
        merged: 3,
    });
    assert_eq!(
        printed(&m.take_ops()),
        "✓ Installed 1 plugins\n    p\n✓ Loaded 3 plugins"
    );
}
