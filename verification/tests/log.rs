use rsplug::log::{
    dual_bar_cells, ellipsis_names, loading_bar_width_beside, loading_bar_width_for,
    sanitize_build_line, ConfigGroup, ConfigList,
};
use rsplug::path::Path;

fn strings(list: &[&str]) -> Vec<String> {
    list.iter().map(|s| s.to_string()).collect()
}

fn paths(list: &[&str]) -> Vec<Path> {
    list.iter().map(|s| Path::parse(s)).collect()
}

#[test]
fn dual_bar_cells_allocates_done_then_running_then_idle() {
    // 1 cell per plugin (len=10, width=10).
    let (done, running, idle) = dual_bar_cells(3, 2, 10, 10);
    assert_eq!((done, running, idle), (3, 2, 5));
    assert_eq!(done + running + idle, 10);

    let (done, running, idle) = dual_bar_cells(8, 5, 10, 10);
    assert_eq!((done, running, idle), (8, 2, 0));

    // Fractions are cut: 130 plugins, width 40: done=65 -> 20, running=8 -> 2.
    let (done, running, idle) = dual_bar_cells(65, 8, 130, 40);
    assert_eq!((done, running, idle), (20, 2, 18));

    let (done, running, idle) = dual_bar_cells(0, 0, 0, 40);
    assert_eq!((done, running, idle), (0, 0, 40));
}

#[test]
fn dual_bar_cells_hold_large_numbers() {
    assert_eq!(dual_bar_cells(u64::MAX, 1, u64::MAX, 12), (12, 0, 0));
    assert_eq!(
        dual_bar_cells(u64::MAX / 2, u64::MAX, u64::MAX, 10),
        (4, 6, 0)
    );
}

#[test]
fn loading_bar_width_uses_remaining_terminal_width() {
    assert_eq!(loading_bar_width_for(100, 3), 52);
    assert_eq!(loading_bar_width_for(20, 123), 10);
}

#[test]
fn loading_bar_width_is_at_least_ten() {
    assert_eq!(loading_bar_width_beside(100, 1, 7), 52);
    assert_eq!(loading_bar_width_beside(58, 1, 7), 10);
    assert_eq!(loading_bar_width_beside(59, 1, 7), 11);
    assert_eq!(loading_bar_width_beside(0, usize::MAX, usize::MAX), 10);
}

#[test]
fn build_lines_keep_what_is_shown_last() {
    assert_eq!(
        sanitize_build_line("10%\r50%\r 100% \r"),
        Some("100%".to_string())
    );
    assert_eq!(sanitize_build_line("a\nb"), Some("a b".to_string()));
    assert_eq!(sanitize_build_line(" \u{3000}\r\t"), None);
    assert_eq!(sanitize_build_line(""), None);
    assert_eq!(sanitize_build_line("plain"), Some("plain".to_string()));
}

#[test]
fn names_are_cut_and_elided() {
    assert_eq!(ellipsis_names(&strings(&[])), "");
    assert_eq!(ellipsis_names(&strings(&["a", "b"])), "a · b");
    assert_eq!(
        ellipsis_names(&strings(&["aaaa", "bbbb", "cccc", "dddd"])),
        "aaaa · bbbb · cccc …"
    );
    assert_eq!(
        ellipsis_names(&strings(&["abcdefghijklmnopqrstuvwxyz"])),
        "abcdefghijklmnopqr……"
    );
    assert_eq!(
        ellipsis_names(&strings(&["abcdefghijklmnopqrst"])),
        "abcdefghijklmnopqrst"
    );
}

#[test]
fn config_files_of_one_directory_are_one_group() {
    let list = ConfigList::from_files(paths(&[
        "/tmp/rsplug/gamma.toml",
        "/tmp/rsplug/alpha.toml",
        "/tmp/rsplug/beta.toml",
    ]));
    assert_eq!(
        list.render_lines(),
        strings(&[
            "Config 3 files",
            "    /tmp/rsplug (3)",
            "        alpha beta gamma",
        ])
    );
}

#[test]
fn config_files_apart_are_listed_by_path() {
    assert_eq!(
        ConfigList::from_files(paths(&["/b/y.toml", "/a/x.toml"])).render_lines(),
        strings(&["Config 2 files (2 locations)", "  /a/x.toml", "  /b/y.toml"])
    );
    assert_eq!(
        ConfigList::from_files(paths(&["/a/x.toml"])).render_lines(),
        strings(&["Config 1 file (1 locations)", "  /a/x.toml"])
    );
    assert_eq!(
        ConfigList::from_files(Vec::new()).render_lines(),
        strings(&["Config 0 files (0 locations)"])
    );
}

#[test]
fn config_files_mostly_in_one_directory_count_the_others() {
    assert_eq!(
        ConfigList::from_files(paths(&["/m/a.toml", "/m/b.toml", "/m/c.toml", "/x/d.toml"]))
            .render_lines(),
        strings(&[
            "Config 4 files",
            "    /m (3)",
            "        a b c",
            "    +1 external file",
        ])
    );
}

#[test]
fn config_files_in_several_directories_are_grouped() {
    assert_eq!(
        ConfigList::from_files(paths(&["/m/a.toml", "/m/b.toml", "/x/c.toml", "/x/d.toml"]))
            .render_lines(),
        strings(&[
            "Config 4 files in 2 locations",
            "    m (2)",
            "    /m",
            "        a b",
            "    x (2)",
            "    /x",
            "        c d",
        ])
    );
}

#[test]
fn config_groups_have_labels_and_names() {
    let group = ConfigGroup::new(
        Path::parse("/home/u/conf"),
        paths(&["/home/u/conf/z.toml", "/home/u/conf/a.b.toml"]),
    );
    assert_eq!(group.location_label(), "conf");
    assert_eq!(group.join_names(), "a.b z");
    let root = ConfigGroup::new(Path::parse("/"), paths(&["/x.toml"]));
    assert_eq!(root.location_label(), "/");
    let groups = vec![root, group];
    assert_eq!(ConfigList::dominant_group(&groups), Some((1, 2)));
    assert_eq!(ConfigList::dominant_group(&Vec::new()), None);
}
